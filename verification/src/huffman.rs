//! Huffman coding: a prefix code in which frequent symbols have short codes.
//!
//! The code of a text is built from the frequencies of its own symbols. The
//! symbols start as single leaves, in ascending order. The two trees of the
//! lowest frequency are taken out and merged under a new node, which is put
//! behind the others, until one tree is left; of trees of the same frequency
//! the one that stands first is taken. The tree that is taken out first
//! becomes the left child, except where two leaves of the same frequency
//! meet: there the smaller symbol goes left. A code is the path from the root
//! to a leaf, `0` for a step to the left and `1` for a step to the right; the
//! single symbol of a text with one symbol has the code `0`.

use crate::error::DecodeError;
use crate::text::{chars_of, string_of};
use vstd::prelude::*;

verus! {

/// A node of a code tree: a leaf with a symbol, or an inner node with two
/// children and no symbol. The frequency of an inner node is the sum of the
/// frequencies of its children.
#[derive(Debug)]
pub enum HuffmanNode {
    Leaf { frequency: u128, character: char },
    Internal { frequency: u128, left: Box<HuffmanNode>, right: Box<HuffmanNode> },
}

impl HuffmanNode {
    /// The frequency of the node.
    pub open spec fn frequency(self) -> u128 {
        match self {
            HuffmanNode::Leaf { frequency, .. } => frequency,
            HuffmanNode::Internal { frequency, .. } => frequency,
        }
    }

    /// The symbols of the leaves under the node.
    pub open spec fn symbols(self) -> Set<char>
        decreases self,
    {
        match self {
            HuffmanNode::Leaf { character, .. } => set![character],
            HuffmanNode::Internal { left, right, .. } => left.symbols().union(right.symbols()),
        }
    }

    /// Whether no symbol stands at two leaves under the node.
    pub open spec fn distinct(self) -> bool
        decreases self,
    {
        match self {
            HuffmanNode::Leaf { .. } => true,
            HuffmanNode::Internal { left, right, .. } => left.distinct() && right.distinct()
                && left.symbols().disjoint(right.symbols()),
        }
    }

    /// A leaf for `character` with the given frequency.
    pub fn new(frequency: u128, character: char) -> (res: HuffmanNode)
        ensures
            res == (HuffmanNode::Leaf { frequency, character }),
    {
        HuffmanNode::Leaf { frequency, character }
    }

    /// The frequency of the node.
    pub fn weight(&self) -> (res: u128)
        ensures
            res == self.frequency(),
    {
        match self {
            HuffmanNode::Leaf { frequency, .. } => *frequency,
            HuffmanNode::Internal { frequency, .. } => *frequency,
        }
    }

    /// The node that joins `first` and `second`, `first` being the one that
    /// was taken out first. `first` goes left, except where both are leaves
    /// of the same frequency and `second` holds the smaller symbol.
    pub fn join(first: HuffmanNode, second: HuffmanNode) -> (res: HuffmanNode)
        requires
            first.frequency() + second.frequency() <= u128::MAX,
        ensures
            res == joined(first, second),
    {
        let frequency: u128 = first.weight() + second.weight();
        let swap: bool = match (&first, &second) {
            (
                HuffmanNode::Leaf { frequency: a, character: x },
                HuffmanNode::Leaf { frequency: b, character: y },
            ) => *a == *b && (*y as u32) < (*x as u32),
            _ => false,
        };
        if swap {
            HuffmanNode::Internal { frequency, left: Box::new(second), right: Box::new(first) }
        } else {
            HuffmanNode::Internal { frequency, left: Box::new(first), right: Box::new(second) }
        }
    }
}

/// A symbol and the number of times it occurs.
#[derive(Debug, Clone, Copy, PartialEq, Eq, Structural)]
pub struct SymbolCount {
    pub symbol: char,
    pub count: u128,
}

/// A symbol and its code, a run of the characters `0` and `1`.
#[derive(Debug, PartialEq, Eq)]
pub struct SymbolCode {
    pub symbol: char,
    pub code: Vec<char>,
}

/// A symbol and its code as a mathematical value.
pub struct Code {
    pub symbol: char,
    pub bits: Seq<char>,
}

impl View for SymbolCode {
    type V = Code;

    open spec fn view(&self) -> Code {
        Code { symbol: self.symbol, bits: self.code@ }
    }
}

/// Whether two nodes that are joined change places: both are leaves of the
/// same frequency, and the second holds the smaller symbol.
pub open spec fn changes_places(first: HuffmanNode, second: HuffmanNode) -> bool {
    &&& first matches HuffmanNode::Leaf { frequency: a, character: x }
    &&& second matches HuffmanNode::Leaf { frequency: b, character: y }
    &&& a == b
    &&& (y as u32) < (x as u32)
}

/// The node that joins `first` and `second`, `first` being the one that was
/// taken out first.
pub open spec fn joined(first: HuffmanNode, second: HuffmanNode) -> HuffmanNode {
    let frequency = (first.frequency() + second.frequency()) as u128;
    if changes_places(first, second) {
        HuffmanNode::Internal { frequency, left: Box::new(second), right: Box::new(first) }
    } else {
        HuffmanNode::Internal { frequency, left: Box::new(first), right: Box::new(second) }
    }
}

/// The place of `c` in a table that is ordered by symbol: the first entry
/// from `from` on whose symbol is not below `c`, or the end of the table.
pub open spec fn slot(table: Seq<SymbolCount>, c: char, from: int) -> int
    decreases table.len() - from,
{
    if from < 0 || from >= table.len() || table[from].symbol as u32 >= c as u32 {
        from
    } else {
        slot(table, c, from + 1)
    }
}

/// `table` with `c` counted once more: the count of `c` is raised by one,
/// or `c` is put in at its place with the count one.
pub open spec fn table_add(table: Seq<SymbolCount>, c: char) -> Seq<SymbolCount> {
    let at = slot(table, c, 0);
    if at < table.len() && table[at].symbol == c {
        table.update(at, SymbolCount { symbol: c, count: (table[at].count + 1) as u128 })
    } else {
        table.insert(at, SymbolCount { symbol: c, count: 1u128 })
    }
}

/// The symbols of `text` in ascending order, each with the number of times
/// it occurs.
pub open spec fn frequency_table(text: Seq<char>) -> Seq<SymbolCount>
    decreases text.len(),
{
    if text.len() == 0 {
        Seq::empty()
    } else {
        table_add(frequency_table(text.drop_last()), text.last())
    }
}

/// The leaves for the entries of `table`, in the order of the table.
pub open spec fn leaves(table: Seq<SymbolCount>) -> Seq<HuffmanNode>
    decreases table.len(),
{
    if table.len() == 0 {
        Seq::empty()
    } else {
        leaves(table.drop_last()).push(
            HuffmanNode::Leaf { frequency: table.last().count, character: table.last().symbol },
        )
    }
}

/// There is one leaf for each entry of the table, with its symbol and its
/// count.
pub proof fn lemma_leaves(table: Seq<SymbolCount>)
    ensures
        leaves(table).len() == table.len(),
        forall|i: int|
            0 <= i < table.len() ==> #[trigger] leaves(table)[i] == (HuffmanNode::Leaf {
                frequency: table[i].count,
                character: table[i].symbol,
            }),
    decreases table.len(),
{
    if table.len() > 0 {
        lemma_leaves(table.drop_last());
    }
}

/// The place of the first of the trees `forest[0..upto]` that has the
/// lowest frequency among them.
pub open spec fn min_index(forest: Seq<HuffmanNode>, upto: int) -> int
    decreases upto,
{
    if upto <= 1 {
        0
    } else {
        let before = min_index(forest, upto - 1);
        if forest[upto - 1].frequency() < forest[before].frequency() {
            upto - 1
        } else {
            before
        }
    }
}

/// The forest after one merge: the two trees of the lowest frequency are
/// taken out, one after the other, and their join is put at the end.
pub open spec fn merge_step(forest: Seq<HuffmanNode>) -> Seq<HuffmanNode> {
    let i = min_index(forest, forest.len() as int);
    let rest = forest.remove(i);
    let j = min_index(rest, rest.len() as int);
    rest.remove(j).push(joined(forest[i], rest[j]))
}

/// The forest after all merges: one tree, or none for an empty forest.
pub open spec fn merged(forest: Seq<HuffmanNode>) -> Seq<HuffmanNode>
    decreases forest.len(),
{
    if forest.len() <= 1 {
        forest
    } else {
        proof {
            lemma_merge_step_len(forest);
        }
        merged(merge_step(forest))
    }
}

/// The tree at `min_index` is the first of the lowest frequency.
pub proof fn lemma_min_index(forest: Seq<HuffmanNode>, upto: int)
    requires
        1 <= upto <= forest.len(),
    ensures
        0 <= min_index(forest, upto) < upto,
        forall|k: int|
            0 <= k < upto ==> forest[min_index(forest, upto)].frequency()
                <= (#[trigger] forest[k]).frequency(),
        forall|k: int|
            0 <= k < min_index(forest, upto) ==> forest[min_index(forest, upto)].frequency()
                < (#[trigger] forest[k]).frequency(),
    decreases upto,
{
    if upto > 1 {
        lemma_min_index(forest, upto - 1);
    }
}

/// A merge makes the forest one tree smaller.
pub proof fn lemma_merge_step_len(forest: Seq<HuffmanNode>)
    requires
        forest.len() >= 2,
    ensures
        merge_step(forest).len() == forest.len() - 1,
{
    let i = min_index(forest, forest.len() as int);
    lemma_min_index(forest, forest.len() as int);
    let rest = forest.remove(i);
    lemma_min_index(rest, rest.len() as int);
}

/// The codes of the leaves under `node`, from left to right, where
/// `prefix` is the path to `node`.
pub open spec fn codes_under(node: HuffmanNode, prefix: Seq<char>) -> Seq<Code>
    decreases node,
{
    match node {
        HuffmanNode::Leaf { character, .. } => seq![Code { symbol: character, bits: prefix }],
        HuffmanNode::Internal { left, right, .. } => codes_under(*left, prefix.push('0'))
            + codes_under(*right, prefix.push('1')),
    }
}

/// The codes of a merged forest: none for the empty forest, the code `0`
/// for a single leaf, and the paths to the leaves otherwise.
pub open spec fn codes_of_forest(forest: Seq<HuffmanNode>) -> Seq<Code> {
    if forest.len() == 0 {
        Seq::empty()
    } else {
        match forest[0] {
            HuffmanNode::Leaf { character, .. } => seq![Code { symbol: character, bits: seq!['0'] }],
            HuffmanNode::Internal { .. } => codes_under(forest[0], Seq::empty()),
        }
    }
}

/// The code of `text`: each symbol of the text with its code.
pub open spec fn codebook_of(text: Seq<char>) -> Seq<Code> {
    codes_of_forest(merged(leaves(frequency_table(text))))
}

/// The code of `c` in `book`: that of the first entry for `c` from `from`
/// on.
pub open spec fn code_for(book: Seq<Code>, c: char, from: int) -> Option<Seq<char>>
    decreases book.len() - from,
{
    if from < 0 || from >= book.len() {
        None
    } else if book[from].symbol == c {
        Some(book[from].bits)
    } else {
        code_for(book, c, from + 1)
    }
}

/// The symbol that has the code `code` in `book`: that of the first entry
/// with this code from `from` on.
pub open spec fn symbol_for(book: Seq<Code>, code: Seq<char>, from: int) -> Option<
    char,
>
    decreases book.len() - from,
{
    if from < 0 || from >= book.len() {
        None
    } else if book[from].bits == code {
        Some(book[from].symbol)
    } else {
        symbol_for(book, code, from + 1)
    }
}

/// The codes of the symbols of `text`, one after the other. A symbol
/// without a code adds nothing.
pub open spec fn encoded(book: Seq<Code>, text: Seq<char>) -> Seq<char>
    decreases text.len(),
{
    if text.len() == 0 {
        Seq::empty()
    } else {
        (match code_for(book, text[0], 0) {
            Some(code) => code,
            None => Seq::empty(),
        }) + encoded(book, text.drop_first())
    }
}

/// The symbols that `bits` decode to, with `buffer` read and not yet
/// matched. The bits are read one by one; as soon as the bits read are a code
/// of the book, its symbol is put out and reading starts afresh. Bits left
/// over at the end stand for nothing.
pub open spec fn decoded_from(book: Seq<Code>, bits: Seq<char>, buffer: Seq<char>) -> Seq<
    char,
>
    decreases bits.len(),
{
    if bits.len() == 0 {
        Seq::empty()
    } else {
        let read = buffer.push(bits[0]);
        match symbol_for(book, read, 0) {
            Some(c) => seq![c] + decoded_from(book, bits.drop_first(), Seq::empty()),
            None => decoded_from(book, bits.drop_first(), read),
        }
    }
}

/// The symbols that `bits` decode to.
pub open spec fn decoded(book: Seq<Code>, bits: Seq<char>) -> Seq<char> {
    decoded_from(book, bits, Seq::empty())
}

/// A code book as a mathematical value: each symbol with the characters of
/// its code.
pub open spec fn book_view(book: Seq<SymbolCode>) -> Seq<Code> {
    book.map_values(|entry: SymbolCode| entry@)
}

/// Whether the symbols of `table` ascend.
pub open spec fn ascending(table: Seq<SymbolCount>) -> bool {
    forall|i: int, j: int|
        0 <= i < j < table.len() ==> ((#[trigger] table[i]).symbol as u32) < (#[trigger] table[j]).symbol as u32
}

/// The sum of the counts of `table`.
pub open spec fn table_total(table: Seq<SymbolCount>) -> nat
    decreases table.len(),
{
    if table.len() == 0 {
        0
    } else {
        table_total(table.drop_last()) + table.last().count as nat
    }
}

/// The sum of the frequencies of the trees of `forest`.
pub open spec fn forest_total(forest: Seq<HuffmanNode>) -> nat
    decreases forest.len(),
{
    if forest.len() == 0 {
        0
    } else {
        forest_total(forest.drop_last()) + forest.last().frequency() as nat
    }
}

/// Whether `table` has an entry for `c`.
pub open spec fn table_has(table: Seq<SymbolCount>, c: char) -> bool {
    exists|i: int| 0 <= i < table.len() && (#[trigger] table[i]).symbol == c
}

/// The place of a symbol lies in the table; the symbols before it are
/// smaller, and the symbol at it is not.
pub proof fn lemma_slot(table: Seq<SymbolCount>, c: char, from: int)
    requires
        0 <= from <= table.len(),
    ensures
        from <= slot(table, c, from) <= table.len(),
        forall|k: int|
            from <= k < slot(table, c, from) ==> ((#[trigger] table[k]).symbol as u32) < c as u32,
        slot(table, c, from) < table.len() ==> table[slot(table, c, from)].symbol as u32 >= c as u32,
    decreases table.len() - from,
{
    if from < table.len() && (table[from].symbol as u32) < c as u32 {
        lemma_slot(table, c, from + 1);
    }
}

/// No count is larger than the sum of all counts.
pub proof fn lemma_table_entry_bound(table: Seq<SymbolCount>, at: int)
    requires
        0 <= at < table.len(),
    ensures
        table[at].count <= table_total(table),
    decreases table.len(),
{
    if at < table.len() - 1 {
        lemma_table_entry_bound(table.drop_last(), at);
    }
}

/// Changing one count changes the sum by as much.
pub proof fn lemma_table_total_update(table: Seq<SymbolCount>, at: int, entry: SymbolCount)
    requires
        0 <= at < table.len(),
    ensures
        table_total(table.update(at, entry)) == table_total(table) - table[at].count + entry.count,
    decreases table.len(),
{
    let changed = table.update(at, entry);
    if at < table.len() - 1 {
        lemma_table_total_update(table.drop_last(), at, entry);
        assert(changed.drop_last() =~= table.drop_last().update(at, entry));
    } else {
        assert(changed.drop_last() =~= table.drop_last());
    }
}

/// A new entry adds its count to the sum.
pub proof fn lemma_table_total_insert(table: Seq<SymbolCount>, at: int, entry: SymbolCount)
    requires
        0 <= at <= table.len(),
    ensures
        table_total(table.insert(at, entry)) == table_total(table) + entry.count,
    decreases table.len(),
{
    let grown = table.insert(at, entry);
    if at < table.len() {
        lemma_table_total_insert(table.drop_last(), at, entry);
        assert(grown.drop_last() =~= table.drop_last().insert(at, entry));
        assert(grown.last() == table.last());
    } else {
        assert(grown.drop_last() =~= table);
    }
}

/// Counting a symbol once more keeps the table in order, raises the sum
/// of the counts by one, and adds the symbol to those of the table.
pub proof fn lemma_table_add(table: Seq<SymbolCount>, c: char)
    requires
        ascending(table),
        table_total(table) < u128::MAX,
    ensures
        ascending(table_add(table, c)),
        table_total(table_add(table, c)) == table_total(table) + 1,
        table_has(table_add(table, c), c),
        forall|x: char| table_has(table, x) ==> table_has(table_add(table, c), x),
        forall|x: char| table_has(table_add(table, c), x) ==> x == c || table_has(table, x),
{
    let at = slot(table, c, 0);
    let after = table_add(table, c);
    lemma_slot(table, c, 0);
    if at < table.len() && table[at].symbol == c {
        lemma_table_entry_bound(table, at);
        lemma_table_total_update(
            table,
            at,
            SymbolCount { symbol: c, count: (table[at].count + 1) as u128 },
        );
        assert(after[at].symbol == c);
        assert forall|x: char| table_has(table, x) implies table_has(after, x) by {
            let i = choose|i: int| 0 <= i < table.len() && (#[trigger] table[i]).symbol == x;
            assert(after[i].symbol == x);
        }
        assert forall|x: char| table_has(after, x) implies x == c || table_has(table, x) by {
            let i = choose|i: int| 0 <= i < after.len() && (#[trigger] after[i]).symbol == x;
            assert(table[i].symbol == x);
        }
        assert forall|i: int, j: int| 0 <= i < j < after.len() implies ((#[trigger] after[i]).symbol
            as u32) < (#[trigger] after[j]).symbol as u32 by {
            assert(after[i].symbol == table[i].symbol);
            assert(after[j].symbol == table[j].symbol);
        }
    } else {
        lemma_table_total_insert(table, at, SymbolCount { symbol: c, count: 1u128 });
        assert(after[at].symbol == c);
        assert forall|x: char| table_has(table, x) implies table_has(after, x) by {
            let i = choose|i: int| 0 <= i < table.len() && (#[trigger] table[i]).symbol == x;
            if i < at {
                assert(after[i].symbol == x);
            } else {
                assert(after[i + 1].symbol == x);
            }
        }
        assert forall|x: char| table_has(after, x) implies x == c || table_has(table, x) by {
            let i = choose|i: int| 0 <= i < after.len() && (#[trigger] after[i]).symbol == x;
            if i < at {
                assert(table[i].symbol == x);
            } else if i > at {
                assert(table[i - 1].symbol == x);
            }
        }
        assert forall|i: int, j: int| 0 <= i < j < after.len() implies ((#[trigger] after[i]).symbol
            as u32) < (#[trigger] after[j]).symbol as u32 by {
            let a = if i < at {
                i
            } else {
                i - 1
            };
            let b = if j < at {
                j
            } else {
                j - 1
            };
            if i != at {
                assert(after[i] == table[a]);
            }
            if j != at {
                assert(after[j] == table[b]);
            }
            if i != at && j != at {
                assert((table[a].symbol as u32) < table[b].symbol as u32);
            }
            if j == at {
                assert((table[i].symbol as u32) < c as u32);
            }
            if i == at && at < table.len() {
                assert(table[at].symbol as u32 >= c as u32);
                if b > at {
                    assert((table[at].symbol as u32) < table[b].symbol as u32);
                }
            }
        }
    }
}

/// The table of a text is in order, its counts sum up to the length of
/// the text, and its symbols are those of the text.
pub proof fn lemma_frequency_table(text: Seq<char>)
    requires
        text.len() < u128::MAX,
    ensures
        ascending(frequency_table(text)),
        table_total(frequency_table(text)) == text.len(),
        forall|x: char| text.contains(x) <==> table_has(frequency_table(text), x),
    decreases text.len(),
{
    if text.len() > 0 {
        let before = text.drop_last();
        lemma_frequency_table(before);
        lemma_table_add(frequency_table(before), text.last());
        assert forall|x: char| text.contains(x) implies table_has(frequency_table(text), x) by {
            let i = choose|i: int| 0 <= i < text.len() && text[i] == x;
            if i < text.len() - 1 {
                assert(before[i] == x);
                assert(before.contains(x));
            }
        }
        assert forall|x: char| table_has(frequency_table(text), x) implies text.contains(x) by {
            if x == text.last() {
                assert(text[text.len() - 1] == x);
            } else {
                assert(before.contains(x));
                let i = choose|i: int| 0 <= i < before.len() && before[i] == x;
                assert(text[i] == x);
            }
        }
    } else {
        assert forall|x: char| table_has(frequency_table(text), x) implies text.contains(x) by {}
    }
}

/// Taking a tree out of a forest takes its frequency out of the sum.
pub proof fn lemma_forest_total_remove(forest: Seq<HuffmanNode>, at: int)
    requires
        0 <= at < forest.len(),
    ensures
        forest_total(forest.remove(at)) == forest_total(forest) - forest[at].frequency(),
    decreases forest.len(),
{
    let rest = forest.remove(at);
    if at < forest.len() - 1 {
        lemma_forest_total_remove(forest.drop_last(), at);
        assert(rest.drop_last() =~= forest.drop_last().remove(at));
        assert(rest.last() == forest.last());
    } else {
        assert(rest =~= forest.drop_last());
    }
}

/// Putting a tree into a forest adds its frequency to the sum.
pub proof fn lemma_forest_total_push(forest: Seq<HuffmanNode>, node: HuffmanNode)
    ensures
        forest_total(forest.push(node)) == forest_total(forest) + node.frequency(),
{
    assert(forest.push(node).drop_last() =~= forest);
}

/// No tree is more frequent than the whole forest.
pub proof fn lemma_forest_entry_bound(forest: Seq<HuffmanNode>, at: int)
    requires
        0 <= at < forest.len(),
    ensures
        forest[at].frequency() <= forest_total(forest),
    decreases forest.len(),
{
    if at < forest.len() - 1 {
        lemma_forest_entry_bound(forest.drop_last(), at);
    }
}

/// The leaves of a table are as frequent as the table's counts sum up to.
pub proof fn lemma_leaves_total(table: Seq<SymbolCount>)
    ensures
        forest_total(leaves(table)) == table_total(table),
    decreases table.len(),
{
    if table.len() > 0 {
        lemma_leaves_total(table.drop_last());
        assert(leaves(table).drop_last() =~= leaves(table.drop_last()));
        assert(leaves(table).last().frequency() == table.last().count);
    }
}

/// A merge leaves the sum of the frequencies as it is, as long as the sum
/// fits into a frequency.
pub proof fn lemma_merge_step_total(forest: Seq<HuffmanNode>)
    requires
        forest.len() >= 2,
        forest_total(forest) <= u128::MAX,
    ensures
        forest_total(merge_step(forest)) == forest_total(forest),
{
    let i = min_index(forest, forest.len() as int);
    lemma_min_index(forest, forest.len() as int);
    let rest = forest.remove(i);
    let j = min_index(rest, rest.len() as int);
    lemma_min_index(rest, rest.len() as int);
    lemma_forest_total_remove(forest, i);
    lemma_forest_total_remove(rest, j);
    lemma_forest_entry_bound(rest, j);
    lemma_forest_total_push(rest.remove(j), joined(forest[i], rest[j]));
}

/// The symbols of a text in ascending order, each with the number of times
/// it occurs.
pub fn count_symbols(stream: &Vec<char>) -> (res: Vec<SymbolCount>)
    ensures
        res@ == frequency_table(stream@),
{
    let mut table: Vec<SymbolCount> = Vec::new();
    let mut i: usize = 0;
    proof {
        assert(stream@.take(0) =~= Seq::<char>::empty());
    }
    while i < stream.len()
        invariant
            i <= stream.len(),
            table@ == frequency_table(stream@.take(i as int)),
        decreases stream.len() - i,
    {
        let c: char = stream[i];
        let ghost before = table@;
        proof {
            assert(stream@.take(i + 1).drop_last() =~= stream@.take(i as int));
            lemma_frequency_table(stream@.take(i as int));
            lemma_slot(before, c, 0);
        }
        let mut at: usize = 0;
        while at < table.len() && (table[at].symbol as u32) < (c as u32)
            invariant
                at <= table.len(),
                table@ == before,
                slot(before, c, 0) == slot(before, c, at as int),
            decreases table.len() - at,
        {
            at += 1;
        }
        if at < table.len() && table[at].symbol == c {
            proof {
                lemma_table_entry_bound(before, at as int);
            }
            let count: u128 = table[at].count;
            table.set(at, SymbolCount { symbol: c, count: count + 1 });
        } else {
            table.insert(at, SymbolCount { symbol: c, count: 1 });
        }
        i += 1;
    }
    proof {
        assert(stream@.take(stream@.len() as int) =~= stream@);
    }
    table
}

/// A forest of code trees.
#[derive(Debug)]
pub struct HuffmanTree {
    tree: Vec<HuffmanNode>,
}

impl View for HuffmanTree {
    type V = Seq<HuffmanNode>;

    closed spec fn view(&self) -> Seq<HuffmanNode> {
        self.tree@
    }
}

impl HuffmanTree {
    /// The empty forest.
    pub fn new() -> (res: HuffmanTree)
        ensures
            res@ == Seq::<HuffmanNode>::empty(),
    {
        HuffmanTree { tree: Vec::new() }
    }

    /// Takes the first tree of the lowest frequency out of the forest.
    pub fn pop(&mut self) -> (res: Option<HuffmanNode>)
        ensures
            old(self)@.len() == 0 ==> res is None && final(self)@ == old(self)@,
            old(self)@.len() > 0 ==> res == Some(
                old(self)@[min_index(old(self)@, old(self)@.len() as int)],
            ) && final(self)@ == old(self)@.remove(
                min_index(old(self)@, old(self)@.len() as int),
            ),
    {
        if self.tree.len() == 0 {
            return None;
        }
        let mut best: usize = 0;
        let mut k: usize = 1;
        while k < self.tree.len()
            invariant
                1 <= k <= self.tree.len(),
                best < k,
                self.tree@ == old(self).tree@,
                best == min_index(self.tree@, k as int),
            decreases self.tree.len() - k,
        {
            if self.tree[k].weight() < self.tree[best].weight() {
                best = k;
            }
            k += 1;
        }
        Some(self.tree.remove(best))
    }

    /// Builds the code tree of `stream`: the leaves of its symbols are
    /// merged until one tree is left. What the forest held before is
    /// dropped.
    pub fn encode(&mut self, stream: &Vec<char>)
        ensures
            final(self)@ == merged(leaves(frequency_table(stream@))),
    {
        let counter: Vec<SymbolCount> = count_symbols(stream);
        let length: usize = stream.len();
        self.tree = Vec::new();
        let mut i: usize = 0;
        proof {
            assert(counter@.take(0) =~= Seq::<SymbolCount>::empty());
        }
        while i < counter.len()
            invariant
                i <= counter.len(),
                self.tree@ == leaves(counter@.take(i as int)),
            decreases counter.len() - i,
        {
            let entry: SymbolCount = counter[i];
            self.tree.push(HuffmanNode::new(entry.count, entry.symbol));
            proof {
                assert(counter@.take(i + 1).drop_last() =~= counter@.take(i as int));
            }
            i += 1;
        }
        proof {
            assert(counter@.take(counter@.len() as int) =~= counter@);
            lemma_frequency_table(stream@);
            lemma_leaves_total(counter@);
        }
        let ghost start = self.tree@;
        while self.tree.len() > 1
            invariant
                merged(self.tree@) == merged(start),
                forest_total(self.tree@) <= usize::MAX,
            decreases self.tree.len(),
        {
            let ghost forest = self.tree@;
            proof {
                lemma_min_index(forest, forest.len() as int);
                let i = min_index(forest, forest.len() as int);
                let rest = forest.remove(i);
                lemma_min_index(rest, rest.len() as int);
                let j = min_index(rest, rest.len() as int);
                lemma_forest_total_remove(forest, i);
                lemma_forest_total_remove(rest, j);
                lemma_forest_entry_bound(rest, j);
                lemma_merge_step_total(forest);
            }
            let first_node: HuffmanNode = self.pop().unwrap();
            let second_node: HuffmanNode = self.pop().unwrap();
            let new_node = HuffmanNode::join(first_node, second_node);
            self.tree.push(new_node);
            proof {
                assert(self.tree@ == merge_step(forest));
            }
        }
    }

    /// Appends to `output` the codes of the leaves under `node`, from left
    /// to right, where `buffer` is the path to `node`.
    pub fn explore_tree(
        &self,
        node: &HuffmanNode,
        buffer: Vec<char>,
        output: &mut Vec<SymbolCode>,
    )
        ensures
            book_view(final(output)@) == book_view(old(output)@) + codes_under(*node, buffer@),
        decreases node,
    {
        match node {
            HuffmanNode::Leaf { character, .. } => {
                let ghost before = output@;
                output.push(SymbolCode { symbol: *character, code: buffer });
                proof {
                    assert(book_view(output@) =~= book_view(before) + codes_under(*node, buffer@));
                }
            },
            HuffmanNode::Internal { left, right, .. } => {
                let ghost before = output@;
                let mut left_buffer: Vec<char> = copy_chars(&buffer);
                left_buffer.push('0');
                let mut right_buffer: Vec<char> = buffer;
                right_buffer.push('1');
                self.explore_tree(left, left_buffer, output);
                self.explore_tree(right, right_buffer, output);
                proof {
                    assert(book_view(output@) =~= book_view(before) + codes_under(
                        *node,
                        buffer@,
                    ));
                }
            },
        }
    }

    /// The codes of the symbols of the tree that was built: none for the
    /// empty forest, and the code `0` for the only symbol of a tree that is
    /// a single leaf.
    pub fn extract_encoding(&self) -> (res: Vec<SymbolCode>)
        ensures
            book_view(res@) == codes_of_forest(self@),
    {
        let mut output_vec: Vec<SymbolCode> = Vec::new();
        if self.tree.len() > 0 {
            match &self.tree[0] {
                HuffmanNode::Leaf { character, .. } => {
                    let mut code: Vec<char> = Vec::new();
                    code.push('0');
                    output_vec.push(SymbolCode { symbol: *character, code });
                    proof {
                        assert(code@ =~= seq!['0']);
                        assert(book_view(output_vec@) =~= codes_of_forest(self@));
                    }
                },
                node => {
                    self.explore_tree(node, Vec::new(), &mut output_vec);
                    proof {
                        assert(book_view(output_vec@) =~= codes_of_forest(self@));
                    }
                },
            }
        } else {
            proof {
                assert(book_view(output_vec@) =~= codes_of_forest(self@));
            }
        }
        output_vec
    }
}

/// A copy of `chars`.
fn copy_chars(chars: &Vec<char>) -> (res: Vec<char>)
    ensures
        res@ == chars@,
{
    let mut copy: Vec<char> = Vec::new();
    let mut i: usize = 0;
    while i < chars.len()
        invariant
            i <= chars.len(),
            copy@ == chars@.take(i as int),
        decreases chars.len() - i,
    {
        copy.push(chars[i]);
        proof {
            assert(copy@ =~= chars@.take(i + 1));
        }
        i += 1;
    }
    proof {
        assert(chars@.take(chars@.len() as int) =~= chars@);
    }
    copy
}

/// Whether `a` and `b` hold the same characters.
fn same_chars(a: &Vec<char>, b: &Vec<char>) -> (res: bool)
    ensures
        res == (a@ == b@),
{
    if a.len() != b.len() {
        return false;
    }
    let mut i: usize = 0;
    while i < a.len()
        invariant
            i <= a.len(),
            a.len() == b.len(),
            a@.take(i as int) == b@.take(i as int),
        decreases a.len() - i,
    {
        if a[i] != b[i] {
            return false;
        }
        proof {
            assert(a@.take(i + 1) =~= a@.take(i as int).push(a@[i as int]));
            assert(b@.take(i + 1) =~= b@.take(i as int).push(b@[i as int]));
        }
        i += 1;
    }
    proof {
        assert(a@.take(a@.len() as int) =~= a@);
        assert(b@.take(b@.len() as int) =~= b@);
    }
    true
}

/// A Huffman coder. It holds the code of the text that it coded last.
#[derive(Debug)]
pub struct Huffman {
    codebook: Vec<SymbolCode>,
    huffman_tree: HuffmanTree,
    encoded: bool,
}

impl Huffman {
    /// The code that the coder holds: each symbol with its code.
    pub closed spec fn codebook(self) -> Seq<Code> {
        book_view(self.codebook@)
    }

    /// Whether the coder has built a code, be it the empty code of the
    /// empty text.
    pub closed spec fn has_encoded(self) -> bool {
        self.encoded
    }

    /// A coder without a code.
    pub fn new() -> (res: Huffman)
        ensures
            res.codebook() == Seq::<Code>::empty(),
            !res.has_encoded(),
    {
        let res = Huffman {
            codebook: Vec::new(),
            huffman_tree: HuffmanTree::new(),
            encoded: false,
        };
        proof {
            assert(res.codebook() =~= Seq::<Code>::empty());
        }
        res
    }

    /// The code that the coder holds: each symbol with its code.
    pub fn codes(&self) -> (res: &Vec<SymbolCode>)
        ensures
            book_view(res@) == self.codebook(),
    {
        &self.codebook
    }

    /// Builds the code of the characters of `stream` and holds it in
    /// place of the code held before.
    pub fn build(&mut self, stream: &Vec<char>)
        ensures
            final(self).codebook() == codebook_of(stream@),
            final(self).has_encoded(),
    {
        self.encoded = true;
        self.huffman_tree.encode(stream);
        let encoding_data = self.huffman_tree.extract_encoding();
        self.codebook = Vec::new();
        let ghost all = encoding_data@;
        let mut i: usize = 0;
        while i < encoding_data.len()
            invariant
                i <= encoding_data.len(),
                encoding_data@ == all,
                self.encoded,
                book_view(self.codebook@) == book_view(all).take(i as int),
            decreases encoding_data.len() - i,
        {
            let character: char = encoding_data[i].symbol;
            let encoding: Vec<char> = copy_chars(&encoding_data[i].code);
            self.update(character, encoding);
            proof {
                assert(book_view(self.codebook@) =~= book_view(all).take(i + 1));
            }
            i += 1;
        }
        proof {
            assert(book_view(all).take(all.len() as int) =~= book_view(all));
        }
    }

    /// Builds the code of `stream` and holds it in place of the code held
    /// before.
    pub fn huffman_encode(&mut self, stream: &str)
        ensures
            final(self).codebook() == codebook_of(stream@),
            final(self).has_encoded(),
    {
        let chars = chars_of(stream);
        self.build(&chars);
    }

    /// Adds the code `encoding` for `character` to the end of the code
    /// that the coder holds.
    fn update(&mut self, character: char, encoding: Vec<char>)
        ensures
            final(self).codebook() == old(self).codebook().push(
                Code { symbol: character, bits: encoding@ },
            ),
            final(self).huffman_tree == old(self).huffman_tree,
            final(self).encoded == old(self).encoded,
    {
        self.codebook.push(SymbolCode { symbol: character, code: encoding });
        proof {
            assert(final(self).codebook() =~= old(self).codebook().push(
                Code { symbol: character, bits: encoding@ },
            ));
        }
    }

    /// The code of `c`, if it has one.
    fn code_of(&self, c: char) -> (res: Option<usize>)
        ensures
            match res {
                Some(at) => at < self.codebook@.len() && code_for(self.codebook(), c, 0) == Some(
                    self.codebook@[at as int].code@,
                ),
                None => code_for(self.codebook(), c, 0) is None,
            },
    {
        let mut i: usize = 0;
        while i < self.codebook.len()
            invariant
                i <= self.codebook.len(),
                code_for(self.codebook(), c, 0) == code_for(self.codebook(), c, i as int),
            decreases self.codebook.len() - i,
        {
            if self.codebook[i].symbol == c {
                return Some(i);
            }
            i += 1;
        }
        None
    }

    /// The symbol that has the code `code`, if there is one.
    fn symbol_of(&self, code: &Vec<char>) -> (res: Option<char>)
        ensures
            res == symbol_for(self.codebook(), code@, 0),
    {
        let mut i: usize = 0;
        while i < self.codebook.len()
            invariant
                i <= self.codebook.len(),
                symbol_for(self.codebook(), code@, 0) == symbol_for(
                    self.codebook(),
                    code@,
                    i as int,
                ),
            decreases self.codebook.len() - i,
        {
            if same_chars(&self.codebook[i].code, code) {
                return Some(self.codebook[i].symbol);
            }
            i += 1;
        }
        None
    }

    /// Builds the code of `stream`, holds it in place of the code held
    /// before, and codes `stream` with it: the codes of its characters, one
    /// after the other.
    pub fn encode_chars(&mut self, stream: &Vec<char>) -> (res: Vec<char>)
        ensures
            final(self).codebook() == codebook_of(stream@),
            final(self).has_encoded(),
            res@ == encoded(codebook_of(stream@), stream@),
    {
        self.build(stream);
        let mut bits: Vec<char> = Vec::new();
        let mut i: usize = 0;
        proof {
            assert(stream@.skip(0) =~= stream@);
        }
        while i < stream.len()
            invariant
                i <= stream.len(),
                self.codebook() == codebook_of(stream@),
                self.has_encoded(),
                bits@ + encoded(self.codebook(), stream@.skip(i as int)) == encoded(
                    self.codebook(),
                    stream@,
                ),
            decreases stream.len() - i,
        {
            let ghost rest = stream@.skip(i as int);
            let ghost before = bits@;
            proof {
                assert(rest[0] == stream@[i as int]);
                assert(rest.drop_first() =~= stream@.skip(i + 1));
            }
            match self.code_of(stream[i]) {
                Some(at) => {
                    let mut k: usize = 0;
                    while k < self.codebook[at].code.len()
                        invariant
                            at < self.codebook@.len(),
                            k <= self.codebook@[at as int].code@.len(),
                            bits@ == before + self.codebook@[at as int].code@.take(k as int),
                        decreases self.codebook@[at as int].code@.len() - k,
                    {
                        bits.push(self.codebook[at].code[k]);
                        proof {
                            assert(bits@ =~= before + self.codebook@[at as int].code@.take(k + 1));
                        }
                        k += 1;
                    }
                    proof {
                        let code = self.codebook@[at as int].code@;
                        assert(code.take(code.len() as int) =~= code);
                        assert((before + code) + encoded(self.codebook(), rest.drop_first())
                            =~= before + (code + encoded(self.codebook(), rest.drop_first())));
                    }
                },
                None => {
                    proof {
                        assert(before + encoded(self.codebook(), rest.drop_first()) =~= before + (
                        Seq::<char>::empty() + encoded(self.codebook(), rest.drop_first())));
                    }
                },
            }
            i += 1;
        }
        proof {
            assert(bits@ + Seq::<char>::empty() =~= bits@);
        }
        bits
    }

    /// Builds the code of `stream`, holds it in place of the code held
    /// before, and codes `stream` with it: a string of `0` and `1`.
    pub fn encode(&mut self, stream: &str) -> (res: String)
        ensures
            final(self).codebook() == codebook_of(stream@),
            final(self).has_encoded(),
            res@ == encoded(codebook_of(stream@), stream@),
    {
        let chars = chars_of(stream);
        let bits = self.encode_chars(&chars);
        string_of(&bits)
    }

    /// Decodes `stream` with the code that the coder holds. The characters
    /// are read one by one; as soon as those read are a code, its symbol is
    /// put out. A coder without a code decodes everything to nothing.
    pub fn decode_chars(&self, stream: &Vec<char>) -> (res: Vec<char>)
        ensures
            res@ == decoded(self.codebook(), stream@),
    {
        let mut buffer: Vec<char> = Vec::new();
        let mut text: Vec<char> = Vec::new();
        let mut i: usize = 0;
        proof {
            assert(stream@.skip(0) =~= stream@);
        }
        while i < stream.len()
            invariant
                i <= stream.len(),
                decoded(self.codebook(), stream@) == text@ + decoded_from(
                    self.codebook(),
                    stream@.skip(i as int),
                    buffer@,
                ),
            decreases stream.len() - i,
        {
            let ghost rest = stream@.skip(i as int);
            let ghost before = text@;
            proof {
                assert(rest[0] == stream@[i as int]);
                assert(rest.drop_first() =~= stream@.skip(i + 1));
            }
            buffer.push(stream[i]);
            match self.symbol_of(&buffer) {
                Some(character) => {
                    text.push(character);
                    buffer = Vec::new();
                    proof {
                        let tail = decoded_from(
                            self.codebook(),
                            rest.drop_first(),
                            Seq::<char>::empty(),
                        );
                        assert(before + (seq![character] + tail) =~= before.push(character) + tail);
                    }
                },
                None => {},
            }
            i += 1;
        }
        proof {
            assert(text@ + Seq::<char>::empty() =~= text@);
        }
        text
    }

    /// Decodes `stream` with the code that the coder holds. A coder
    /// without a code decodes everything to the empty string.
    pub fn decode(&self, stream: &str) -> (res: String)
        ensures
            res@ == decoded(self.codebook(), stream@),
    {
        let chars = chars_of(stream);
        let text = self.decode_chars(&chars);
        string_of(&text)
    }

    /// Decodes `stream` with the code that the coder holds, and fails for a
    /// coder that has never built a code.
    pub fn try_decode(&self, stream: &str) -> (res: Result<String, DecodeError>)
        ensures
            match res {
                Ok(text) => self.has_encoded() && text@ == decoded(self.codebook(), stream@),
                Err(e) => !self.has_encoded() && e == DecodeError::NothingEncoded,
            },
    {
        if !self.encoded {
            return Err(DecodeError::NothingEncoded);
        }
        Ok(self.decode(stream))
    }
}

} // verus!
