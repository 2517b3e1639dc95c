//! Canonical Huffman codes: from a table of code lengths to a decode trie,
//! and from the trie and a bit stream to a symbol.

use vstd::prelude::*;
use vstd::arithmetic::power2::pow2;
use crate::errors::{GzipError, GzipResult};
use crate::sources::bitstream::{bit_at, bit_len, shifted, lemma_pow2_double};
use crate::sources::bitsource::BitSource;

verus! {

/// The longest code, in bits, that a table of code lengths may ask for.
pub const MAX_BITS: u8 = 15;

/// The largest number of symbols a table of code lengths may hold: symbols
/// are numbered with 16 bits.
pub const MAX_SYMBOLS: usize = 65536;

/// A decode trie. A leaf holds a symbol; an inner node branches on the next
/// bit of the stream.
#[derive(Debug, PartialEq, Eq)]
pub enum HuffmanNode {
    Code(u16),
    Node { zero: Box<HuffmanNode>, one: Box<HuffmanNode> },
}

pub type Huffman = HuffmanNode;

/// One assigned code: its length in bits, its symbol, and its bit pattern
/// as it appears in the stream. Bit `j` of the pattern, counted from the
/// least significant bit, is the `j`-th bit read.
pub type CodeEntry = (u8, u16, u32);

pub type HuffmanCode = Vec<CodeEntry>;

/// The number of symbols below `upto` whose code has `len` bits.
pub open spec fn count_len(lengths: Seq<u8>, len: int, upto: int) -> nat
    decreases upto,
{
    if upto <= 0 {
        0
    } else {
        count_len(lengths, len, upto - 1) + if lengths[upto - 1] == len {
            1nat
        } else {
            0nat
        }
    }
}

/// The numeric value of the first code of `len` bits: zero for one bit, and
/// for each further bit twice the value that follows the last code of the
/// length before.
pub open spec fn first_code(lengths: Seq<u8>, len: int) -> nat
    decreases len,
{
    if len <= 1 {
        0
    } else {
        2 * (first_code(lengths, len - 1) + count_len(lengths, len - 1, lengths.len() as int))
    }
}

/// The canonical code of `symbol`: codes of one length are consecutive in
/// symbol order, starting at the first code of that length.
pub open spec fn code_of(lengths: Seq<u8>, symbol: int) -> nat {
    first_code(lengths, lengths[symbol] as int) + count_len(
        lengths,
        lengths[symbol] as int,
        symbol,
    )
}

/// The codes of `len` bits fit in `len` bits.
pub open spec fn fits_at(lengths: Seq<u8>, len: int) -> bool {
    first_code(lengths, len) + count_len(lengths, len, lengths.len() as int) <= pow2(len as nat)
}

/// A table of code lengths from which codes can be assigned: not too many
/// symbols, no length above `MAX_BITS`, and for every length no more codes
/// than that many bits can tell apart once the shorter codes are taken.
pub open spec fn assignable(lengths: Seq<u8>) -> bool {
    &&& lengths.len() <= MAX_SYMBOLS
    &&& forall|i: int| 0 <= i < lengths.len() ==> lengths[i] <= MAX_BITS
    &&& forall|len: int| 1 <= len <= MAX_BITS ==> fits_at(lengths, len)
}

/// The lowest `n` bits of `v` in opposite order.
pub open spec fn reversed(v: nat, n: nat) -> nat
    decreases n,
{
    if n == 0 {
        0
    } else {
        2 * reversed(v, (n - 1) as nat) + shifted(v, (n - 1) as nat) % 2
    }
}

/// The entry of `symbol`: a canonical code is written to the stream from
/// its most significant bit, so its pattern in reading order is the code
/// with its bits in opposite order.
pub open spec fn entry_of(lengths: Seq<u8>, symbol: int) -> CodeEntry {
    (
        lengths[symbol],
        symbol as u16,
        reversed(code_of(lengths, symbol), lengths[symbol] as nat) as u32,
    )
}

/// The entries of the symbols below `upto` that have a code, in symbol
/// order.
pub open spec fn entries(lengths: Seq<u8>, upto: int) -> Seq<CodeEntry>
    decreases upto,
{
    if upto <= 0 {
        Seq::empty()
    } else if lengths[upto - 1] > 0 {
        entries(lengths, upto - 1).push(entry_of(lengths, upto - 1))
    } else {
        entries(lengths, upto - 1)
    }
}

/// The codes assigned to a table of code lengths, where it is assignable.
pub open spec fn assigned(lengths: Seq<u8>) -> Option<Seq<CodeEntry>> {
    if assignable(lengths) {
        Some(entries(lengths, lengths.len() as int))
    } else {
        None
    }
}

/// Some entry among `list` has no bit left to branch on.
pub open spec fn has_spent(list: Seq<CodeEntry>) -> bool {
    exists|i: int| 0 <= i < list.len() && (#[trigger] list[i]).0 == 0
}

/// What is left of an entry after its first bit was read.
pub open spec fn advanced(e: CodeEntry) -> CodeEntry {
    ((e.0 - 1) as u8, e.1, e.2 / 2)
}

/// The entries among the first `upto` of `list` whose next bit is `bit`,
/// each with that bit taken off.
pub open spec fn branch(list: Seq<CodeEntry>, bit: int, upto: int) -> Seq<CodeEntry>
    decreases upto,
{
    if upto <= 0 {
        Seq::empty()
    } else if list[upto - 1].2 % 2 == bit {
        branch(list, bit, upto - 1).push(advanced(list[upto - 1]))
    } else {
        branch(list, bit, upto - 1)
    }
}

/// The fewest bits that one of the first `upto` entries of `list` has left.
pub open spec fn shortest(list: Seq<CodeEntry>, upto: int) -> nat
    decreases upto,
{
    if upto <= 1 {
        list[0].0 as nat
    } else if list[upto - 1].0 < shortest(list, upto - 1) {
        list[upto - 1].0 as nat
    } else {
        shortest(list, upto - 1)
    }
}

/// No entry among the first `upto` has fewer bits left than the shortest,
/// and the shortest is that of one of them.
pub proof fn lemma_shortest_is_least(list: Seq<CodeEntry>, upto: int)
    requires
        1 <= upto <= list.len(),
    ensures
        forall|i: int| 0 <= i < upto ==> shortest(list, upto) <= (#[trigger] list[i]).0,
        exists|i: int| 0 <= i < upto && shortest(list, upto) == (#[trigger] list[i]).0,
    decreases upto,
{
    if upto > 1 {
        lemma_shortest_is_least(list, upto - 1);
        let i = choose|i: int|
            0 <= i < upto - 1 && shortest(list, upto - 1) == (#[trigger] list[i]).0;
        if list[upto - 1].0 < shortest(list, upto - 1) {
            assert(shortest(list, upto) == list[upto - 1].0);
        } else {
            assert(shortest(list, upto) == list[i].0);
        }
    } else {
        assert(shortest(list, upto) == list[0].0);
    }
}

/// The number of bits that the group of bits read at `list` still has to
/// go: `left` inside a group, and where a new group starts, as many as the
/// shortest code of the list has left.
pub open spec fn group_of(list: Seq<CodeEntry>, left: nat) -> nat {
    if left == 0 {
        shortest(list, list.len() as int)
    } else {
        left
    }
}

/// The decode trie of a list of entries, `depth` bits into their codes and
/// with `left` bits of the current group still to read. The codes are read
/// in groups of bits: a group is as long as the shortest code that is left
/// where it starts, and each pattern of its bits must start an entry. So
/// where a group starts, a single entry is a leaf; everywhere else the
/// entries are split on their next bit. There is no trie where the list is
/// empty, where a group would be empty, or where an entry has no bit left
/// to be split on.
pub open spec fn trie(list: Seq<CodeEntry>, depth: nat, left: nat) -> Option<HuffmanNode>
    decreases MAX_BITS - depth,
{
    if list.len() == 0 {
        None
    } else if left == 0 && list.len() == 1 {
        Some(HuffmanNode::Code(list[0].1))
    } else if depth >= MAX_BITS || has_spent(list) {
        None
    } else {
        let rest = (group_of(list, left) - 1) as nat;
        match (
            trie(branch(list, 0, list.len() as int), depth + 1, rest),
            trie(branch(list, 1, list.len() as int), depth + 1, rest),
        ) {
            (Some(zero), Some(one)) => Some(
                HuffmanNode::Node { zero: Box::new(zero), one: Box::new(one) },
            ),
            _ => None,
        }
    }
}

/// What is left of an entry after its first `count` bits were read.
pub open spec fn behind(e: CodeEntry, count: nat) -> CodeEntry {
    (
        if e.0 >= count {
            (e.0 - count) as u8
        } else {
            0u8
        },
        e.1,
        shifted(e.2 as nat, count) as u32,
    )
}

/// What is left of the entries of `list` after the first `count` bits of
/// each were read.
pub open spec fn all_behind(list: Seq<CodeEntry>, count: nat) -> Seq<CodeEntry> {
    Seq::new(list.len(), |i: int| behind(list[i], count))
}

/// The decode trie of a list of whole entries of which `right` bits were
/// read, where a group of bits starts.
pub open spec fn trie_behind(list: Seq<CodeEntry>, right: nat) -> Option<HuffmanNode> {
    trie(all_behind(list, right), right, 0)
}

/// The decode trie of a table of code lengths.
pub open spec fn huffman_of(lengths: Seq<u8>) -> Option<HuffmanNode> {
    match assigned(lengths) {
        Some(list) => trie(list, 0, 0),
        None => None,
    }
}

/// Reading a symbol at bit `pos`: the symbol, or `TruncatedFile` where the
/// stream ends inside a code; and the position after the bits consumed.
pub open spec fn walk(tree: HuffmanNode, data: Seq<u8>, pos: nat) -> (GzipResult<u32>, nat)
    decreases tree,
{
    match tree {
        HuffmanNode::Code(code) => (Ok(code as u32), pos),
        HuffmanNode::Node { zero, one } => {
            if pos >= bit_len(data) {
                (Err(GzipError::TruncatedFile), pos)
            } else if bit_at(data, pos as int) == 0 {
                walk(*zero, data, pos + 1)
            } else {
                walk(*one, data, pos + 1)
            }
        },
    }
}

/// A count grows with the number of symbols looked at.
pub proof fn lemma_count_len_monotonic(lengths: Seq<u8>, len: int, a: int, b: int)
    requires
        a <= b,
    ensures
        count_len(lengths, len, a) <= count_len(lengths, len, b),
        count_len(lengths, len, b) <= count_len(lengths, len, a) + (b - a),
    decreases b - a,
{
    if a < b {
        lemma_count_len_monotonic(lengths, len, a, b - 1);
    }
}

/// The opposite order of `n` bits is a value of `n` bits.
pub proof fn lemma_reversed_bound(v: nat, n: nat)
    ensures
        reversed(v, n) < pow2(n),
    decreases n,
{
    if n == 0 {
        vstd::arithmetic::power2::lemma2_to64();
    } else {
        lemma_reversed_bound(v, (n - 1) as nat);
        lemma_pow2_double((n - 1) as nat);
    }
}

impl HuffmanNode {
    /// The lowest `bits` bits of `value` in opposite order.
    pub fn reverse_bits(value: u32, bits: u8) -> (r: u32)
        requires
            bits <= 32,
        ensures
            r as nat == reversed(value as nat, bits as nat),
    {
        let mut ans: u64 = 0;
        let mut rest: u32 = value;
        let mut i: u8 = 0;
        while i < bits
            invariant
                i <= bits <= 32,
                rest as nat == shifted(value as nat, i as nat),
                ans as nat == reversed(value as nat, i as nat),
                ans < 0x1_0000_0000,
            decreases bits - i,
        {
            proof {
                lemma_reversed_bound(value as nat, (i + 1) as nat);
                vstd::arithmetic::power2::lemma2_to64();
                if i + 1 < 32 {
                    vstd::arithmetic::power2::lemma_pow2_strictly_increases((i + 1) as nat, 32);
                }
            }
            ans = 2 * ans + (rest % 2) as u64;
            rest = rest / 2;
            i = i + 1;
        }
        ans as u32
    }

    /// Assigns the canonical codes of a table of code lengths, one entry for
    /// each symbol whose length is not zero, in symbol order. Fails with
    /// `InternalError` where the table is not assignable.
    pub fn assign_codes(codes: &Vec<u8>) -> (r: GzipResult<HuffmanCode>)
        ensures
            match r {
                Ok(list) => assigned(codes@) == Some(list@),
                Err(e) => e == GzipError::InternalError && assigned(codes@) is None,
            },
    {
        let n = codes.len();
        if n > MAX_SYMBOLS {
            return Err(GzipError::InternalError);
        }
        let mut bit_count: Vec<u32> = vec![0u32; 16];
        let mut next_count: Vec<u32> = vec![0u32; 16];
        let mut i: usize = 0;
        while i < n
            invariant
                i <= n,
                n == codes.len(),
                n <= MAX_SYMBOLS,
                bit_count.len() == 16,
                forall|j: int| 0 <= j < i ==> codes[j] <= MAX_BITS,
                forall|len: int| 0 <= len < 16 ==> bit_count[len] as nat == count_len(
                    codes@,
                    len,
                    i as int,
                ),
            decreases n - i,
        {
            let len = codes[i];
            if len > MAX_BITS {
                return Err(GzipError::InternalError);
            }
            proof {
                lemma_count_len_monotonic(codes@, len as int, 0, i as int);
            }
            bit_count.set(len as usize, bit_count[len as usize] + 1);
            i = i + 1;
        }
        let mut prev: u32 = 0;
        let mut limit: u32 = 2;
        let mut len: usize = 1;
        proof {
            vstd::arithmetic::power2::lemma2_to64();
        }
        while len < 16
            invariant
                1 <= len <= 16,
                n == codes.len(),
                bit_count.len() == 16,
                next_count.len() == 16,
                forall|l: int| 0 <= l < 16 ==> bit_count[l] as nat == count_len(codes@, l, n as int),
                len < 16 ==> prev as nat == first_code(codes@, len as int),
                len < 16 ==> limit as nat == pow2(len as nat),
                prev <= limit <= 0x1_0000,
                forall|l: int| 1 <= l < len ==> fits_at(codes@, l),
                forall|l: int| 1 <= l < len ==> next_count[l] as nat == first_code(codes@, l),
            decreases 16 - len,
        {
            next_count.set(len, prev);
            proof {
                lemma_count_len_monotonic(codes@, len as int, 0, n as int);
                vstd::arithmetic::power2::lemma2_to64();
                lemma_pow2_double(len as nat);
                if len + 1 < 16 {
                    vstd::arithmetic::power2::lemma_pow2_strictly_increases((len + 1) as nat, 16);
                }
            }
            if bit_count[len] > limit - prev {
                assert(!fits_at(codes@, len as int));
                return Err(GzipError::InternalError);
            }
            assert(fits_at(codes@, len as int));
            if len < 15 {
                prev = (prev + bit_count[len]) * 2;
                limit = limit * 2;
            }
            len = len + 1;
        }
        assert(assignable(codes@));
        let mut huffman: HuffmanCode = Vec::new();
        let mut s: usize = 0;
        while s < n
            invariant
                s <= n,
                n == codes.len(),
                n <= MAX_SYMBOLS,
                next_count.len() == 16,
                assignable(codes@),
                huffman@ == entries(codes@, s as int),
                forall|l: int| 1 <= l < 16 ==> next_count[l] as nat == first_code(codes@, l)
                    + count_len(codes@, l, s as int),
            decreases n - s,
        {
            let bits = codes[s];
            if bits > 0 {
                proof {
                    lemma_count_len_monotonic(codes@, bits as int, (s + 1) as int, n as int);
                    assert(fits_at(codes@, bits as int));
                    vstd::arithmetic::power2::lemma2_to64();
                    vstd::arithmetic::power2::lemma_pow2_strictly_increases(bits as nat, 16);
                }
                let code = next_count[bits as usize];
                let pattern = Self::reverse_bits(code, bits);
                huffman.push((bits, s as u16, pattern));
                next_count.set(bits as usize, code + 1);
            }
            s = s + 1;
        }
        Ok(huffman)
    }

    /// Builds the decode trie of a list of entries of which the first
    /// `right` bits were read, where a group of bits starts. Fails with
    /// `InternalError` where the list has no trie.
    pub fn build_trie(huffman: &HuffmanCode, right: u16) -> (r: GzipResult<Self>)
        ensures
            match r {
                Ok(tree) => trie_behind(huffman@, right as nat) == Some(tree),
                Err(e) => e == GzipError::InternalError && trie_behind(huffman@, right as nat)
                    is None,
            },
    {
        let n = huffman.len();
        let mut rest: HuffmanCode = Vec::new();
        let mut i: usize = 0;
        while i < n
            invariant
                i <= n,
                n == huffman.len(),
                rest.len() == i,
                forall|j: int| 0 <= j < i ==> #[trigger] rest[j] == behind(huffman[j], right as nat),
            decreases n - i,
        {
            let (len, symbol, pattern) = huffman[i];
            let left: u8 = if len as u16 >= right {
                (len as u16 - right) as u8
            } else {
                0
            };
            rest.push((left, symbol, Self::drop_bits(pattern, right)));
            i = i + 1;
        }
        assert(rest@ =~= all_behind(huffman@, right as nat));
        Self::build_group(&rest, right, 0)
    }

    /// `pattern` without its `count` lowest bits.
    fn drop_bits(pattern: u32, count: u16) -> (r: u32)
        ensures
            r == shifted(pattern as nat, count as nat),
    {
        let mut value = pattern;
        let mut i: u16 = 0;
        while i < count
            invariant
                i <= count,
                value == shifted(pattern as nat, i as nat),
            decreases count - i,
        {
            value = value / 2;
            i = i + 1;
        }
        value
    }

    /// Builds the decode trie of a list of entries, `right` bits into their
    /// codes and with `left` bits of the current group still to read.
    fn build_group(huffman: &HuffmanCode, right: u16, left: u8) -> (r: GzipResult<Self>)
        ensures
            match r {
                Ok(tree) => trie(huffman@, right as nat, left as nat) == Some(tree),
                Err(e) => e == GzipError::InternalError && trie(
                    huffman@,
                    right as nat,
                    left as nat,
                ) is None,
            },
        decreases MAX_BITS - right,
    {
        let n = huffman.len();
        if n == 0 {
            return Err(GzipError::InternalError);
        }
        if left == 0 && n == 1 {
            return Ok(HuffmanNode::Code(huffman[0].1));
        }
        if right >= MAX_BITS as u16 {
            return Err(GzipError::InternalError);
        }
        let mut zeros: HuffmanCode = Vec::new();
        let mut ones: HuffmanCode = Vec::new();
        let mut least: u8 = huffman[0].0;
        let mut i: usize = 0;
        while i < n
            invariant
                i <= n,
                n == huffman.len(),
                n >= 1,
                !(left == 0 && n == 1),
                right < MAX_BITS,
                forall|j: int| 0 <= j < i ==> (#[trigger] huffman[j]).0 != 0,
                least == shortest(huffman@, i as int),
                zeros@ == branch(huffman@, 0, i as int),
                ones@ == branch(huffman@, 1, i as int),
            decreases n - i,
        {
            let (len, symbol, pattern) = huffman[i];
            if len == 0 {
                assert(has_spent(huffman@));
                return Err(GzipError::InternalError);
            }
            if len < least {
                least = len;
            }
            let rest: CodeEntry = (len - 1, symbol, pattern / 2);
            if pattern % 2 == 0 {
                zeros.push(rest);
            } else {
                ones.push(rest);
            }
            i = i + 1;
        }
        assert(!has_spent(huffman@));
        proof {
            lemma_shortest_is_least(huffman@, n as int);
        }
        let group: u8 = if left == 0 {
            least
        } else {
            left
        };
        assert(group == group_of(huffman@, left as nat));
        assert(group >= 1);
        let zero = match Self::build_group(&zeros, right + 1, group - 1) {
            Ok(t) => t,
            Err(e) => {
                return Err(e);
            },
        };
        let one = match Self::build_group(&ones, right + 1, group - 1) {
            Ok(t) => t,
            Err(e) => {
                return Err(e);
            },
        };
        Ok(HuffmanNode::Node { zero: Box::new(zero), one: Box::new(one) })
    }

    /// Builds the decode trie of a table of code lengths, one length per
    /// symbol, zero for a symbol that is not used. Fails with
    /// `InternalError` where the table has no trie.
    pub fn build(codes: Vec<u8>) -> (r: GzipResult<Self>)
        ensures
            match r {
                Ok(tree) => huffman_of(codes@) == Some(tree),
                Err(e) => e == GzipError::InternalError && huffman_of(codes@) is None,
            },
    {
        let huffman = match Self::assign_codes(&codes) {
            Ok(list) => list,
            Err(e) => {
                return Err(e);
            },
        };
        assert(all_behind(huffman@, 0) =~= huffman@);
        Self::build_trie(&huffman, 0)
    }

    /// Reads one symbol: walks the trie from its root, one bit of the input
    /// for each branch, to a leaf. Fails with `TruncatedFile` where the
    /// input ends on the way.
    pub fn get_code<T: BitSource>(huffman: &Self, input: &mut T) -> (r: GzipResult<u32>)
        requires
            old(input).inv(),
        ensures
            final(input).inv(),
            final(input).data() == old(input).data(),
            r == walk(*huffman, old(input).data(), old(input).bit_pos()).0,
            final(input).bit_pos() == walk(*huffman, old(input).data(), old(input).bit_pos()).1,
    {
        let mut node = huffman;
        loop
            invariant
                input.inv(),
                input.data() == old(input).data(),
                walk(*node, input.data(), input.bit_pos()) == walk(
                    *huffman,
                    old(input).data(),
                    old(input).bit_pos(),
                ),
            decreases *node,
        {
            match node {
                HuffmanNode::Code(code) => {
                    return Ok(*code as u32);
                },
                HuffmanNode::Node { zero, one } => {
                    proof {
                        input.lemma_in_bounds();
                    }
                    let bit = match input.get_bit() {
                        Ok(b) => b,
                        Err(e) => {
                            return Err(e);
                        },
                    };
                    if bit == 0 {
                        node = &**zero;
                    } else {
                        node = &**one;
                    }
                },
            }
        }
    }
}

} // verus!
