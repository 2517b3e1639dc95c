//! What the decode trie means: a stream that carries the canonical code of
//! a symbol decodes to that symbol.

use vstd::prelude::*;
use vstd::multiset::Multiset;
use vstd::arithmetic::power2::pow2;
use crate::errors::GzipError;
use crate::sources::bitstream::{bit_at, bit_len, shifted};
use crate::blocks::huffman::{
    CodeEntry, HuffmanNode, MAX_BITS, advanced, assignable, branch, code_of, entries, entry_of, fits_at,
    huffman_of, reversed, trie, walk, lemma_count_len_monotonic, lemma_reversed_bound,
    group_of,
};

verus! {

/// Bit `j` of a code of `len` bits, counted from its most significant bit.
pub open spec fn code_bit(code: nat, len: nat, j: nat) -> nat {
    shifted(code, (len - 1 - j) as nat) % 2
}

/// The stream carries the pattern of `entry` at bit `pos`: the `j`-th bit
/// read is bit `j` of the pattern.
pub open spec fn spells(data: Seq<u8>, pos: nat, entry: CodeEntry) -> bool {
    &&& pos + entry.0 <= bit_len(data)
    &&& forall|j: nat|
        j < entry.0 ==> bit_at(data, (pos + j) as int) == #[trigger] shifted(entry.2 as nat, j)
            % 2
}

/// Dropping `k + 1` bits is dropping one bit and then `k`.
pub proof fn lemma_shifted_head(v: nat, k: nat)
    ensures
        shifted(v, k + 1) == shifted(v / 2, k),
    decreases k,
{
    assert(shifted(v, k + 1) == shifted(v, k) / 2);
    if k > 0 {
        lemma_shifted_head(v, (k - 1) as nat);
        assert(shifted(v / 2, k) == shifted(v / 2, (k - 1) as nat) / 2);
    } else {
        assert(shifted(v, 0) == v);
        assert(shifted(v / 2, 0) == v / 2);
    }
}

/// Bit `j` of the opposite order of `n` bits is bit `n - 1 - j` of the
/// value.
pub proof fn lemma_reversed_bit(v: nat, n: nat, j: nat)
    requires
        j < n,
    ensures
        shifted(reversed(v, n), j) % 2 == shifted(v, (n - 1 - j) as nat) % 2,
    decreases n,
{
    let low = reversed(v, (n - 1) as nat);
    let top = shifted(v, (n - 1) as nat) % 2;
    assert(reversed(v, n) == 2 * low + top);
    if j == 0 {
        assert(shifted(reversed(v, n), 0) == reversed(v, n));
    } else {
        lemma_shifted_head(reversed(v, n), (j - 1) as nat);
        assert((2 * low + top) / 2 == low);
        lemma_reversed_bit(v, (n - 1) as nat, (j - 1) as nat);
    }
}

/// An entry whose next bit is `bit` is found, with that bit taken off, on
/// that side of the split. The result is where.
pub proof fn lemma_branch_member(list: Seq<CodeEntry>, bit: int, upto: int, i: int) -> (at: int)
    requires
        0 <= i < upto <= list.len(),
        list[i].2 % 2 == bit,
    ensures
        0 <= at < branch(list, bit, upto).len(),
        branch(list, bit, upto)[at] == advanced(list[i]),
    decreases upto,
{
    if i == upto - 1 {
        branch(list, bit, upto - 1).len() as int
    } else {
        let at = lemma_branch_member(list, bit, upto - 1, i);
        at
    }
}

/// The trie of a list of entries decodes the pattern of each of them to its
/// symbol, and reads no more bits than the pattern has.
pub proof fn lemma_trie_decodes(
    list: Seq<CodeEntry>,
    depth: nat,
    left: nat,
    i: int,
    data: Seq<u8>,
    pos: nat,
)
    requires
        trie(list, depth, left) is Some,
        0 <= i < list.len(),
        spells(data, pos, list[i]),
    ensures
        walk(trie(list, depth, left)->0, data, pos).0 == Ok::<u32, GzipError>(list[i].1 as u32),
        pos <= walk(trie(list, depth, left)->0, data, pos).1 <= pos + list[i].0,
    decreases MAX_BITS - depth,
{
    if !(left == 0 && list.len() == 1) {
        let entry = list[i];
        let rest = (group_of(list, left) - 1) as nat;
        assert(entry.0 > 0);
        let bit = (entry.2 % 2) as int;
        let side = branch(list, bit, list.len() as int);
        let at = lemma_branch_member(list, bit, list.len() as int, i);
        assert(shifted(entry.2 as nat, 0) % 2 == bit_at(data, (pos + 0nat) as int));
        assert(shifted(entry.2 as nat, 0) == entry.2);
        assert forall|j: nat| j < side[at].0 implies bit_at(data, (pos + 1 + j) as int)
            == #[trigger] shifted(side[at].2 as nat, j) % 2 by {
            lemma_shifted_head(entry.2 as nat, j);
            assert(bit_at(data, (pos + (j + 1)) as int) == shifted(entry.2 as nat, j + 1) % 2);
        }
        assert(spells(data, pos + 1, side[at]));
        if bit == 0 {
            lemma_trie_decodes(side, depth + 1, rest, at, data, pos + 1);
        } else {
            lemma_trie_decodes(side, depth + 1, rest, at, data, pos + 1);
        }
    }
}

/// The symbols of the first `upto` entries of `list`, each as often as it
/// has an entry.
pub open spec fn symbols(list: Seq<CodeEntry>, upto: int) -> Multiset<u16>
    decreases upto,
{
    if upto <= 0 {
        Multiset::empty()
    } else {
        symbols(list, upto - 1).insert(list[upto - 1].1)
    }
}

/// The symbols at the leaves of a trie, each as often as it has a leaf.
pub open spec fn leaves(tree: HuffmanNode) -> Multiset<u16>
    decreases tree,
{
    match tree {
        HuffmanNode::Code(symbol) => Multiset::empty().insert(symbol),
        HuffmanNode::Node { zero, one } => leaves(*zero).add(leaves(*one)),
    }
}

/// The symbols of the first entries of a list do not depend on the entries
/// behind them.
proof fn lemma_symbols_prefix(long: Seq<CodeEntry>, short: Seq<CodeEntry>, upto: int)
    requires
        0 <= upto <= short.len() <= long.len(),
        forall|i: int| 0 <= i < upto ==> long[i] == short[i],
    ensures
        symbols(long, upto) == symbols(short, upto),
    decreases upto,
{
    if upto > 0 {
        lemma_symbols_prefix(long, short, upto - 1);
    }
}

/// A split puts each entry on one side: the symbols of the two sides are
/// the symbols of the list.
proof fn lemma_branch_symbols(list: Seq<CodeEntry>, upto: int)
    requires
        0 <= upto <= list.len(),
    ensures
        symbols(list, upto) == symbols(
            branch(list, 0, upto),
            branch(list, 0, upto).len() as int,
        ).add(symbols(branch(list, 1, upto), branch(list, 1, upto).len() as int)),
    decreases upto,
{
    let zeros = branch(list, 0, upto);
    let ones = branch(list, 1, upto);
    if upto > 0 {
        lemma_branch_symbols(list, upto - 1);
        let zeros_before = branch(list, 0, upto - 1);
        let ones_before = branch(list, 1, upto - 1);
        let rest = advanced(list[upto - 1]);
        if list[upto - 1].2 % 2 == 0 {
            assert(zeros == zeros_before.push(rest));
            assert(ones == ones_before);
            lemma_symbols_prefix(zeros, zeros_before, zeros_before.len() as int);
        } else {
            assert(ones == ones_before.push(rest));
            assert(zeros == zeros_before);
            lemma_symbols_prefix(ones, ones_before, ones_before.len() as int);
        }
        assert(symbols(list, upto) =~= symbols(zeros, zeros.len() as int).add(
            symbols(ones, ones.len() as int),
        ));
    } else {
        assert(symbols(list, upto) =~= symbols(zeros, zeros.len() as int).add(
            symbols(ones, ones.len() as int),
        ));
    }
}

/// The leaves of the trie of a list of entries are the symbols of the
/// list: each entry has its leaf, and there is no other leaf.
pub proof fn lemma_trie_leaves(list: Seq<CodeEntry>, depth: nat, left: nat)
    requires
        trie(list, depth, left) is Some,
    ensures
        leaves(trie(list, depth, left)->0) == symbols(list, list.len() as int),
    decreases MAX_BITS - depth,
{
    if left == 0 && list.len() == 1 {
        assert(symbols(list, 0) == Multiset::<u16>::empty());
        assert(symbols(list, 1) == symbols(list, 0).insert(list[0].1));
    } else {
        let n = list.len() as int;
        let rest = (group_of(list, left) - 1) as nat;
        lemma_branch_symbols(list, n);
        lemma_trie_leaves(branch(list, 0, n), depth + 1, rest);
        lemma_trie_leaves(branch(list, 1, n), depth + 1, rest);
    }
}

/// A symbol that has a code has an entry in the list of entries. The result
/// is where.
pub proof fn lemma_entries_member(lengths: Seq<u8>, upto: int, symbol: int) -> (at: int)
    requires
        0 <= symbol < upto <= lengths.len(),
        lengths[symbol] > 0,
    ensures
        0 <= at < entries(lengths, upto).len(),
        entries(lengths, upto)[at] == entry_of(lengths, symbol),
    decreases upto,
{
    if symbol == upto - 1 {
        entries(lengths, upto - 1).len() as int
    } else {
        let at = lemma_entries_member(lengths, upto - 1, symbol);
        at
    }
}

/// The canonical code of a symbol fits in its length.
pub proof fn lemma_code_fits(lengths: Seq<u8>, symbol: int)
    requires
        assignable(lengths),
        0 <= symbol < lengths.len(),
        lengths[symbol] > 0,
    ensures
        code_of(lengths, symbol) < pow2(lengths[symbol] as nat),
{
    let len = lengths[symbol] as int;
    assert(fits_at(lengths, len));
    lemma_count_len_monotonic(lengths, len, symbol + 1, lengths.len() as int);
}

/// A stream that carries the canonical code of a symbol, its most
/// significant bit first, decodes to that symbol, and the decoder reads no
/// more bits than the code has.
pub proof fn lemma_decodes_canonical_code(
    lengths: Seq<u8>,
    symbol: int,
    data: Seq<u8>,
    pos: nat,
)
    requires
        huffman_of(lengths) is Some,
        0 <= symbol < lengths.len(),
        lengths[symbol] > 0,
        pos + lengths[symbol] <= bit_len(data),
        forall|j: nat|
            j < lengths[symbol] ==> bit_at(data, (pos + j) as int) == #[trigger] code_bit(
                code_of(lengths, symbol),
                lengths[symbol] as nat,
                j,
            ),
    ensures
        walk(huffman_of(lengths)->0, data, pos).0 == Ok::<u32, GzipError>(symbol as u32),
        pos <= walk(huffman_of(lengths)->0, data, pos).1 <= pos + lengths[symbol],
{
    let list = entries(lengths, lengths.len() as int);
    let at = lemma_entries_member(lengths, lengths.len() as int, symbol);
    let entry = entry_of(lengths, symbol);
    let len = lengths[symbol] as nat;
    let code = code_of(lengths, symbol);
    lemma_reversed_bound(code, len);
    vstd::arithmetic::power2::lemma2_to64();
    vstd::arithmetic::power2::lemma_pow2_strictly_increases(len, 32);
    assert(entry.2 as nat == reversed(code, len));
    assert forall|j: nat| j < entry.0 implies bit_at(data, (pos + j) as int)
        == #[trigger] shifted(entry.2 as nat, j) % 2 by {
        lemma_reversed_bit(code, len, j);
        assert(bit_at(data, (pos + j) as int) == code_bit(code, len, j));
    }
    assert(spells(data, pos, list[at]));
    lemma_trie_decodes(list, 0, 0, at, data, pos);
}

/// Two tables with the same code lengths have the same decode trie, and so
/// read the same symbol from every place of every stream.
pub proof fn lemma_build_deterministic(a: Seq<u8>, b: Seq<u8>, data: Seq<u8>, pos: nat)
    requires
        a.len() == b.len(),
        forall|i: int| 0 <= i < a.len() ==> a[i] == b[i],
    ensures
        huffman_of(a) == huffman_of(b),
        huffman_of(a) matches Some(tree) ==> walk(tree, data, pos) == walk(
            huffman_of(b)->0,
            data,
            pos,
        ),
{
    assert(a =~= b);
}

} // verus!
