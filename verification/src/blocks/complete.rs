//! Complete codes: a table whose codes fill the code space has a decode
//! trie, and the trie reads each code to its last bit.

use vstd::prelude::*;
use vstd::arithmetic::power2::pow2;
use crate::errors::GzipError;
use crate::sources::bitstream::{bit_at, bit_len, shifted, lemma_pow2_double};
use crate::blocks::huffman::{
    CodeEntry, MAX_BITS, MAX_SYMBOLS, advanced, assignable, branch, code_of, count_len,
    entries, entry_of, first_code, fits_at, has_spent, huffman_of, reversed, trie, walk,
    lemma_count_len_monotonic, lemma_reversed_bound, group_of, shortest,
    lemma_shortest_is_least,
};
use crate::blocks::canonical::{
    code_bit, spells, lemma_shifted_head, lemma_reversed_bit, lemma_branch_member,
    lemma_entries_member, lemma_code_fits,
};

verus! {

/// The share of the code space that a code of `len` bits takes, in units
/// of the share of a code of `MAX_BITS` bits.
pub open spec fn share(len: u8) -> nat {
    pow2((MAX_BITS - len) as nat)
}

/// The shares of the first `upto` entries of `list` together.
pub open spec fn shares(list: Seq<CodeEntry>, upto: int) -> nat
    decreases upto,
{
    if upto <= 0 {
        0
    } else {
        shares(list, upto - 1) + share(list[upto - 1].0)
    }
}

/// The shares of the codes of the first `upto` symbols of a table together.
pub open spec fn kraft_sum(lengths: Seq<u8>, upto: int) -> nat
    decreases upto,
{
    if upto <= 0 {
        0
    } else if lengths[upto - 1] > 0 {
        kraft_sum(lengths, upto - 1) + share(lengths[upto - 1])
    } else {
        kraft_sum(lengths, upto - 1)
    }
}

/// The codes of a table fill the code space: no code could be added, and
/// every stream of bits starts with a code.
pub open spec fn complete(lengths: Seq<u8>) -> bool {
    kraft_sum(lengths, lengths.len() as int) == pow2(MAX_BITS as nat)
}

/// No entry of `list` has more than `MAX_BITS` bits left.
pub open spec fn bounded(list: Seq<CodeEntry>) -> bool {
    forall|i: int| 0 <= i < list.len() ==> (#[trigger] list[i]).0 <= MAX_BITS
}

/// The entries of a table take the shares of its codes.
proof fn lemma_entries_shares(lengths: Seq<u8>, upto: int)
    requires
        0 <= upto <= lengths.len(),
        forall|i: int| 0 <= i < lengths.len() ==> lengths[i] <= MAX_BITS,
    ensures
        shares(entries(lengths, upto), entries(lengths, upto).len() as int) == kraft_sum(
            lengths,
            upto,
        ),
        bounded(entries(lengths, upto)),
    decreases upto,
{
    if upto > 0 {
        lemma_entries_shares(lengths, upto - 1);
        let before = entries(lengths, upto - 1);
        if lengths[upto - 1] > 0 {
            let list = entries(lengths, upto);
            assert(list == before.push(entry_of(lengths, upto - 1)));
            lemma_shares_prefix(list, before, before.len() as int);
        }
    }
}

/// Lists that agree on their first `upto` entries have the same shares
/// there.
proof fn lemma_shares_prefix(a: Seq<CodeEntry>, b: Seq<CodeEntry>, upto: int)
    requires
        0 <= upto <= a.len(),
        upto <= b.len(),
        forall|i: int| 0 <= i < upto ==> a[i] == b[i],
    ensures
        shares(a, upto) == shares(b, upto),
    decreases upto,
{
    if upto > 0 {
        lemma_shares_prefix(a, b, upto - 1);
    }
}

/// The two sides of a split take twice the shares of the list: every entry
/// is on one side, with one bit less and so twice its share.
proof fn lemma_branch_shares(list: Seq<CodeEntry>, upto: int)
    requires
        0 <= upto <= list.len(),
        !has_spent(list),
        bounded(list),
    ensures
        shares(branch(list, 0, upto), branch(list, 0, upto).len() as int) + shares(
            branch(list, 1, upto),
            branch(list, 1, upto).len() as int,
        ) == 2 * shares(list, upto),
        bounded(branch(list, 0, upto)),
        bounded(branch(list, 1, upto)),
    decreases upto,
{
    if upto > 0 {
        lemma_branch_shares(list, upto - 1);
        let entry = list[upto - 1];
        assert(entry.0 > 0);
        let rest = advanced(entry);
        lemma_pow2_double((MAX_BITS - entry.0) as nat);
        assert(share(rest.0) == 2 * share(entry.0));
        let zeros = branch(list, 0, upto);
        let ones = branch(list, 1, upto);
        let zeros_before = branch(list, 0, upto - 1);
        let ones_before = branch(list, 1, upto - 1);
        if entry.2 % 2 == 0 {
            assert(zeros == zeros_before.push(rest));
            assert(ones == ones_before);
            lemma_shares_prefix(zeros, zeros_before, zeros_before.len() as int);
        } else {
            assert(ones == ones_before.push(rest));
            assert(zeros == zeros_before);
            lemma_shares_prefix(ones, ones_before, ones_before.len() as int);
        }
    }
}

/// A list of entries that has a trie does not take more than the whole
/// code space.
proof fn lemma_trie_shares(list: Seq<CodeEntry>, depth: nat, left: nat)
    requires
        trie(list, depth, left) is Some,
        bounded(list),
    ensures
        shares(list, list.len() as int) <= pow2(MAX_BITS as nat),
    decreases MAX_BITS - depth,
{
    if left == 0 && list.len() == 1 {
        assert(shares(list, 1) == shares(list, 0) + share(list[0].0));
        assert(shares(list, 0) == 0);
        if list[0].0 > 0 {
            vstd::arithmetic::power2::lemma_pow2_strictly_increases(
                (MAX_BITS - list[0].0) as nat,
                MAX_BITS as nat,
            );
        }
    } else {
        let n = list.len() as int;
        let rest = (group_of(list, left) - 1) as nat;
        lemma_branch_shares(list, n);
        lemma_trie_shares(branch(list, 0, n), depth + 1, rest);
        lemma_trie_shares(branch(list, 1, n), depth + 1, rest);
    }
}

/// Where the entries of a list take the whole code space, its trie reads
/// the pattern of each entry to its last bit.
pub proof fn lemma_trie_decodes_exactly(
    list: Seq<CodeEntry>,
    depth: nat,
    left: nat,
    i: int,
    data: Seq<u8>,
    pos: nat,
)
    requires
        trie(list, depth, left) is Some,
        bounded(list),
        shares(list, list.len() as int) == pow2(MAX_BITS as nat),
        0 <= i < list.len(),
        spells(data, pos, list[i]),
    ensures
        walk(trie(list, depth, left)->0, data, pos) == (
            Ok::<u32, GzipError>(list[i].1 as u32),
            pos + list[i].0 as nat,
        ),
    decreases MAX_BITS - depth,
{
    if left == 0 && list.len() == 1 {
        assert(shares(list, 1) == shares(list, 0) + share(list[0].0));
        assert(shares(list, 0) == 0);
        if list[0].0 > 0 {
            vstd::arithmetic::power2::lemma_pow2_strictly_increases(
                (MAX_BITS - list[0].0) as nat,
                MAX_BITS as nat,
            );
        }
    } else {
        let n = list.len() as int;
        let rest = (group_of(list, left) - 1) as nat;
        let entry = list[i];
        assert(entry.0 > 0);
        let bit = (entry.2 % 2) as int;
        let side = branch(list, bit, n);
        let at = lemma_branch_member(list, bit, n, i);
        lemma_branch_shares(list, n);
        lemma_trie_shares(branch(list, 0, n), depth + 1, rest);
        lemma_trie_shares(branch(list, 1, n), depth + 1, rest);
        assert(shifted(entry.2 as nat, 0) % 2 == bit_at(data, (pos + 0nat) as int));
        assert(shifted(entry.2 as nat, 0) == entry.2);
        assert forall|j: nat| j < side[at].0 implies bit_at(data, (pos + 1 + j) as int)
            == #[trigger] shifted(side[at].2 as nat, j) % 2 by {
            lemma_shifted_head(entry.2 as nat, j);
            assert(bit_at(data, (pos + (j + 1)) as int) == shifted(entry.2 as nat, j + 1) % 2);
        }
        assert(spells(data, pos + 1, side[at]));
        lemma_trie_decodes_exactly(side, depth + 1, rest, at, data, pos + 1);
    }
}

/// In a table whose codes fill the code space, a stream that carries the
/// canonical code of a symbol, its most significant bit first, decodes to
/// that symbol, and the decoder reads exactly the bits of the code.
pub proof fn lemma_decodes_complete_code(
    lengths: Seq<u8>,
    symbol: int,
    data: Seq<u8>,
    pos: nat,
)
    requires
        huffman_of(lengths) is Some,
        complete(lengths),
        0 <= symbol < lengths.len(),
        lengths[symbol] > 0,
        pos + lengths[symbol] <= bit_len(data),
        forall|j: nat|
            j < lengths[symbol] ==> bit_at(data, (pos + j) as int) == #[trigger] code_bit(
                code_of(lengths, symbol),
                lengths[symbol] as nat,
                j,
            ),
    ensures
        walk(huffman_of(lengths)->0, data, pos) == (
            Ok::<u32, GzipError>(symbol as u32),
            pos + lengths[symbol] as nat,
        ),
{
    let list = entries(lengths, lengths.len() as int);
    let at = lemma_entries_member(lengths, lengths.len() as int, symbol);
    let entry = entry_of(lengths, symbol);
    let len = lengths[symbol] as nat;
    let code = code_of(lengths, symbol);
    lemma_reversed_bound(code, len);
    vstd::arithmetic::power2::lemma2_to64();
    vstd::arithmetic::power2::lemma_pow2_strictly_increases(len, 32);
    assert(entry.2 as nat == reversed(code, len));
    assert forall|j: nat| j < entry.0 implies bit_at(data, (pos + j) as int)
        == #[trigger] shifted(entry.2 as nat, j) % 2 by {
        lemma_reversed_bit(code, len, j);
        assert(bit_at(data, (pos + j) as int) == code_bit(code, len, j));
    }
    assert(spells(data, pos, list[at]));
    lemma_entries_shares(lengths, lengths.len() as int);
    lemma_trie_decodes_exactly(list, 0, 0, at, data, pos);
}

/// The patterns of two entries differ at a bit that both have: neither is
/// the start of the other.
pub open spec fn apart(a: CodeEntry, b: CodeEntry) -> bool {
    exists|k: nat|
        k < a.0 && k < b.0 && #[trigger] shifted(a.2 as nat, k) % 2 != shifted(b.2 as nat, k) % 2
}

/// No pattern of `list` is the start of another.
pub open spec fn prefix_free(list: Seq<CodeEntry>) -> bool {
    forall|i: int, j: int|
        0 <= i < list.len() && 0 <= j < list.len() && i != j ==> apart(
            #[trigger] list[i],
            #[trigger] list[j],
        )
}

/// Every entry of `list`, `depth` bits into its code, has no more than the
/// rest of `MAX_BITS` bits left.
pub open spec fn within(list: Seq<CodeEntry>, depth: nat) -> bool {
    forall|i: int| 0 <= i < list.len() ==> (#[trigger] list[i]).0 + depth <= MAX_BITS
}

/// The entry of `list` that became entry `at` of the side of `bit`.
pub open spec fn origin(list: Seq<CodeEntry>, bit: int, upto: int, at: int) -> int
    decreases upto,
{
    if upto <= 0 {
        0
    } else if list[upto - 1].2 % 2 == bit && at == branch(list, bit, upto - 1).len() {
        upto - 1
    } else {
        origin(list, bit, upto - 1, at)
    }
}

/// Each entry of a side of a split is an entry of the list with its first
/// bit taken off.
proof fn lemma_origin(list: Seq<CodeEntry>, bit: int, upto: int, at: int)
    requires
        0 <= upto <= list.len(),
        0 <= at < branch(list, bit, upto).len(),
    ensures
        0 <= origin(list, bit, upto, at) < upto,
        list[origin(list, bit, upto, at)].2 % 2 == bit,
        branch(list, bit, upto)[at] == advanced(list[origin(list, bit, upto, at)]),
        branch(list, bit, upto).len() <= upto,
        at < branch(list, bit, upto).len() - 1 ==> origin(list, bit, upto, at) < origin(
            list,
            bit,
            upto,
            branch(list, bit, upto).len() - 1,
        ),
    decreases upto,
{
    if upto > 0 {
        let before = branch(list, bit, upto - 1);
        if list[upto - 1].2 % 2 == bit {
            if at < before.len() {
                lemma_origin(list, bit, upto - 1, at);
            }
        } else {
            lemma_origin(list, bit, upto - 1, at);
            if at < before.len() - 1 {
                lemma_origin(list, bit, upto - 1, before.len() - 1);
            }
        }
        if upto - 1 > 0 && before.len() > 0 {
            lemma_origin(list, bit, upto - 1, before.len() - 1);
        }
    }
}

/// Different entries of a side of a split come from different entries of
/// the list.
proof fn lemma_origin_injective(list: Seq<CodeEntry>, bit: int, upto: int, a: int, b: int)
    requires
        0 <= upto <= list.len(),
        0 <= a < b < branch(list, bit, upto).len(),
    ensures
        origin(list, bit, upto, a) < origin(list, bit, upto, b),
    decreases upto,
{
    if upto > 0 {
        let before = branch(list, bit, upto - 1);
        lemma_origin(list, bit, upto, a);
        lemma_origin(list, bit, upto, b);
        if list[upto - 1].2 % 2 == bit && b == before.len() {
            lemma_origin(list, bit, upto - 1, a);
        } else {
            lemma_origin_injective(list, bit, upto - 1, a, b);
        }
    }
}

/// The sides of a split of a prefix-free list are prefix-free, one bit
/// further into the codes.
proof fn lemma_branch_prefix_free(list: Seq<CodeEntry>, bit: int, depth: nat)
    requires
        prefix_free(list),
        within(list, depth),
        !has_spent(list),
    ensures
        prefix_free(branch(list, bit, list.len() as int)),
        within(branch(list, bit, list.len() as int), depth + 1),
{
    let n = list.len() as int;
    let side = branch(list, bit, n);
    assert forall|a: int| 0 <= a < side.len() implies (#[trigger] side[a]).0 + depth + 1
        <= MAX_BITS by {
        lemma_origin(list, bit, n, a);
        let i = origin(list, bit, n, a);
        assert(list[i].0 > 0);
    }
    assert forall|a: int, b: int|
        0 <= a < side.len() && 0 <= b < side.len() && a != b implies apart(
        #[trigger] side[a],
        #[trigger] side[b],
    ) by {
        lemma_origin(list, bit, n, a);
        lemma_origin(list, bit, n, b);
        if a < b {
            lemma_origin_injective(list, bit, n, a, b);
        } else {
            lemma_origin_injective(list, bit, n, b, a);
        }
        let i = origin(list, bit, n, a);
        let j = origin(list, bit, n, b);
        assert(apart(list[i], list[j]));
        let k = choose|k: nat|
            k < list[i].0 && k < list[j].0 && #[trigger] shifted(list[i].2 as nat, k) % 2
                != shifted(list[j].2 as nat, k) % 2;
        assert(shifted(list[i].2 as nat, 0) == list[i].2);
        assert(shifted(list[j].2 as nat, 0) == list[j].2);
        assert(k > 0);
        let m = (k - 1) as nat;
        lemma_shifted_head(list[i].2 as nat, m);
        lemma_shifted_head(list[j].2 as nat, m);
        assert(list[i].0 > 0 && list[j].0 > 0);
        assert(shifted(side[a].2 as nat, m) % 2 != shifted(side[b].2 as nat, m) % 2);
    }
}

/// A prefix-free list does not take more than the whole code space.
pub proof fn lemma_prefix_free_shares(list: Seq<CodeEntry>, depth: nat)
    requires
        prefix_free(list),
        within(list, depth),
    ensures
        shares(list, list.len() as int) <= pow2(MAX_BITS as nat),
    decreases MAX_BITS - depth,
{
    let n = list.len() as int;
    if n == 0 {
    } else if n == 1 {
        assert(shares(list, 1) == shares(list, 0) + share(list[0].0));
        assert(shares(list, 0) == 0);
        if list[0].0 > 0 {
            vstd::arithmetic::power2::lemma_pow2_strictly_increases(
                (MAX_BITS - list[0].0) as nat,
                MAX_BITS as nat,
            );
        }
    } else {
        lemma_no_spent(list);
        assert(list[0].0 > 0);
        lemma_branch_shares(list, n);
        lemma_branch_prefix_free(list, 0, depth);
        lemma_branch_prefix_free(list, 1, depth);
        lemma_prefix_free_shares(branch(list, 0, n), depth + 1);
        lemma_prefix_free_shares(branch(list, 1, n), depth + 1);
    }
}

/// In a prefix-free list of two or more entries every entry has a bit left.
proof fn lemma_no_spent(list: Seq<CodeEntry>)
    requires
        prefix_free(list),
        list.len() >= 2,
    ensures
        !has_spent(list),
{
    if has_spent(list) {
        let i = choose|i: int| 0 <= i < list.len() && (#[trigger] list[i]).0 == 0;
        let j = if i == 0 {
            1int
        } else {
            0int
        };
        assert(apart(list[i], list[j]));
    }
}

/// Every entry of `list` has `left` bits or more.
pub open spec fn roomy(list: Seq<CodeEntry>, left: nat) -> bool {
    forall|i: int| 0 <= i < list.len() ==> (#[trigger] list[i]).0 >= left
}

/// A prefix-free list that takes the whole code space has a trie, wherever
/// in a group of bits it stands, as long as each of its entries has the
/// bits that the group still reads.
proof fn lemma_complete_list_has_trie(list: Seq<CodeEntry>, depth: nat, left: nat)
    requires
        prefix_free(list),
        within(list, depth),
        roomy(list, left),
        shares(list, list.len() as int) == pow2(MAX_BITS as nat),
    ensures
        trie(list, depth, left) is Some,
    decreases MAX_BITS - depth,
{
    let n = list.len() as int;
    vstd::arithmetic::power2::lemma_pow2_pos(MAX_BITS as nat);
    if n == 0 {
        assert(shares(list, 0) == 0);
    } else if !(left == 0 && n == 1) {
        if n >= 2 {
            lemma_no_spent(list);
        } else {
            assert(list[0].0 >= left);
            assert(!has_spent(list));
        }
        assert(list[0].0 > 0);
        assert(depth < MAX_BITS);
        lemma_shortest_is_least(list, n);
        let group = group_of(list, left);
        assert(group >= 1) by {
            if left == 0 {
                let i = choose|i: int| 0 <= i < n && shortest(list, n) == (#[trigger] list[i]).0;
                assert(list[i].0 > 0);
            }
        }
        assert(roomy(list, group));
        let rest = (group - 1) as nat;
        lemma_branch_shares(list, n);
        lemma_branch_prefix_free(list, 0, depth);
        lemma_branch_prefix_free(list, 1, depth);
        lemma_prefix_free_shares(branch(list, 0, n), depth + 1);
        lemma_prefix_free_shares(branch(list, 1, n), depth + 1);
        lemma_branch_roomy(list, 0, group);
        lemma_branch_roomy(list, 1, group);
        lemma_complete_list_has_trie(branch(list, 0, n), depth + 1, rest);
        lemma_complete_list_has_trie(branch(list, 1, n), depth + 1, rest);
    }
}

/// Each entry on a side of a split has one bit less than it had.
proof fn lemma_branch_roomy(list: Seq<CodeEntry>, bit: int, group: nat)
    requires
        roomy(list, group),
        group >= 1,
    ensures
        roomy(branch(list, bit, list.len() as int), (group - 1) as nat),
{
    let n = list.len() as int;
    let side = branch(list, bit, n);
    assert forall|a: int| 0 <= a < side.len() implies (#[trigger] side[a]).0 >= group - 1 by {
        lemma_origin(list, bit, n, a);
        let i = origin(list, bit, n, a);
        assert(list[i].0 >= group);
    }
}

/// Dropping `a + b` bits is dropping `a` bits and then `b`.
proof fn lemma_shifted_add(v: nat, a: nat, b: nat)
    ensures
        shifted(v, a + b) == shifted(shifted(v, a), b),
    decreases b,
{
    if b > 0 {
        lemma_shifted_add(v, a, (b - 1) as nat);
        assert(shifted(v, a + b) == shifted(v, (a + b - 1) as nat) / 2);
        assert(shifted(shifted(v, a), b) == shifted(shifted(v, a), (b - 1) as nat) / 2);
    } else {
        assert(shifted(shifted(v, a), 0) == shifted(v, a));
    }
}

/// A value below `2^(n + k)` without its `k` lowest bits is below `2^n`.
proof fn lemma_shifted_bound(v: nat, n: nat, k: nat)
    requires
        v < pow2(n + k),
    ensures
        shifted(v, k) < pow2(n),
    decreases k,
{
    if k > 0 {
        lemma_pow2_double(n + (k - 1) as nat);
        lemma_shifted_head(v, (k - 1) as nat);
        lemma_shifted_bound(v / 2, n, (k - 1) as nat);
    } else {
        assert(shifted(v, 0) == v);
    }
}

/// A value that is at least `2^k` times `low` is at least `low` without its
/// `k` lowest bits.
proof fn lemma_shifted_at_least(v: nat, low: nat, k: nat)
    requires
        v >= pow2(k) * low,
    ensures
        shifted(v, k) >= low,
    decreases k,
{
    if k > 0 {
        let m = (k - 1) as nat;
        lemma_pow2_double(m);
        lemma_shifted_head(v, m);
        assert(pow2(k) * low == 2 * (pow2(m) * low)) by (nonlinear_arith)
            requires
                pow2(k) == 2 * pow2(m),
        ;
        lemma_shifted_at_least(v / 2, low, m);
    } else {
        vstd::arithmetic::power2::lemma2_to64();
        assert(shifted(v, 0) == v);
        assert(pow2(0) * low == low) by (nonlinear_arith)
            requires
                pow2(0) == 1,
        ;
    }
}

/// Two different values below `2^n` differ in one of their `n` lowest
/// bits. The result is which.
proof fn lemma_differ_bit(a: nat, b: nat, n: nat) -> (k: nat)
    requires
        a != b,
        a < pow2(n),
        b < pow2(n),
    ensures
        k < n,
        shifted(a, k) % 2 != shifted(b, k) % 2,
    decreases n,
{
    if n == 0 {
        vstd::arithmetic::power2::lemma2_to64();
        0
    } else if a % 2 != b % 2 {
        assert(shifted(a, 0) == a);
        assert(shifted(b, 0) == b);
        0
    } else {
        let m = (n - 1) as nat;
        lemma_pow2_double(m);
        let k = lemma_differ_bit(a / 2, b / 2, m);
        lemma_shifted_head(a, k);
        lemma_shifted_head(b, k);
        k + 1
    }
}

/// The first code of a length is beyond all the codes of a shorter length,
/// cut to that shorter length.
proof fn lemma_first_code_grows(lengths: Seq<u8>, short: int, long: int)
    requires
        1 <= short < long,
    ensures
        first_code(lengths, long) >= pow2((long - short) as nat) * (first_code(lengths, short)
            + count_len(lengths, short, lengths.len() as int)),
    decreases long,
{
    let room = first_code(lengths, short) + count_len(lengths, short, lengths.len() as int);
    assert(first_code(lengths, long) == 2 * (first_code(lengths, long - 1) + count_len(
        lengths,
        long - 1,
        lengths.len() as int,
    )));
    if long - 1 == short {
        vstd::arithmetic::power2::lemma2_to64();
        assert(pow2(1) * room == 2 * room) by (nonlinear_arith)
            requires
                pow2(1) == 2,
        ;
    } else {
        lemma_first_code_grows(lengths, short, long - 1);
        let m = (long - 1 - short) as nat;
        lemma_pow2_double(m);
        assert(pow2((long - short) as nat) * room == 2 * (pow2(m) * room)) by (nonlinear_arith)
            requires
                pow2((long - short) as nat) == 2 * pow2(m),
        ;
    }
}

/// The entries of two different symbols of an assignable table are apart:
/// no canonical code is the start of another.
proof fn lemma_entries_apart(lengths: Seq<u8>, s: int, t: int)
    requires
        assignable(lengths),
        0 <= s < lengths.len(),
        0 <= t < lengths.len(),
        s != t,
        0 < lengths[s] <= lengths[t],
    ensures
        apart(entry_of(lengths, s), entry_of(lengths, t)),
        apart(entry_of(lengths, t), entry_of(lengths, s)),
{
    let n = lengths.len() as int;
    let short = lengths[s] as nat;
    let long = lengths[t] as nat;
    let gap = (long - short) as nat;
    let a = code_of(lengths, s);
    let b = code_of(lengths, t);
    lemma_code_fits(lengths, s);
    lemma_code_fits(lengths, t);
    let cut = shifted(b, gap);
    assert(long == short + gap);
    lemma_shifted_bound(b, short, gap);
    if gap == 0 {
        assert(shifted(b, 0) == b);
        if s < t {
            lemma_count_len_monotonic(lengths, short as int, s + 1, t);
        } else {
            lemma_count_len_monotonic(lengths, short as int, t + 1, s);
        }
        assert(a != cut);
    } else {
        lemma_first_code_grows(lengths, short as int, long as int);
        lemma_count_len_monotonic(lengths, short as int, s + 1, n);
        let room = first_code(lengths, short as int) + count_len(lengths, short as int, n);
        assert(a + 1 <= room);
        assert(pow2(gap) * (a + 1) <= pow2(gap) * room) by (nonlinear_arith)
            requires
                a + 1 <= room,
        ;
        lemma_shifted_at_least(b, a + 1, gap);
        assert(a != cut);
    }
    let k = lemma_differ_bit(a, cut, short);
    let j = (short - 1 - k) as nat;
    lemma_reversed_bit(a, short, j);
    lemma_reversed_bit(b, long, j);
    lemma_shifted_add(b, gap, k);
    assert((long - 1 - j) as nat == gap + k);
    lemma_reversed_bound(a, short);
    lemma_reversed_bound(b, long);
    vstd::arithmetic::power2::lemma2_to64();
    vstd::arithmetic::power2::lemma_pow2_strictly_increases(short, 32);
    vstd::arithmetic::power2::lemma_pow2_strictly_increases(long, 32);
    let x = entry_of(lengths, s);
    let y = entry_of(lengths, t);
    assert(x.2 as nat == reversed(a, short));
    assert(y.2 as nat == reversed(b, long));
    assert(j < x.0 && j < y.0);
    assert(shifted(x.2 as nat, j) % 2 != shifted(y.2 as nat, j) % 2);
}

/// The symbol whose entry is entry `at` of the entries of the first `upto`
/// symbols.
pub open spec fn symbol_at(lengths: Seq<u8>, upto: int, at: int) -> int
    decreases upto,
{
    if upto <= 0 {
        0
    } else if lengths[upto - 1] > 0 && at == entries(lengths, upto - 1).len() {
        upto - 1
    } else {
        symbol_at(lengths, upto - 1, at)
    }
}

/// Each entry is the entry of a symbol that has a code, and different
/// entries are entries of different symbols.
proof fn lemma_symbol_at(lengths: Seq<u8>, upto: int, at: int)
    requires
        0 <= upto <= lengths.len(),
        0 <= at < entries(lengths, upto).len(),
    ensures
        0 <= symbol_at(lengths, upto, at) < upto,
        lengths[symbol_at(lengths, upto, at)] > 0,
        entries(lengths, upto)[at] == entry_of(lengths, symbol_at(lengths, upto, at)),
        entries(lengths, upto).len() <= upto,
        forall|other: int|
            0 <= other < at ==> symbol_at(lengths, upto, other) < symbol_at(lengths, upto, at),
    decreases upto,
{
    if upto > 0 {
        let before = entries(lengths, upto - 1);
        if lengths[upto - 1] > 0 && at == before.len() {
            assert forall|other: int| 0 <= other < at implies symbol_at(lengths, upto, other)
                < symbol_at(lengths, upto, at) by {
                lemma_symbol_at(lengths, upto - 1, other);
            }
            if before.len() > 0 {
                lemma_symbol_at(lengths, upto - 1, before.len() - 1);
            }
        } else {
            lemma_symbol_at(lengths, upto - 1, at);
            assert forall|other: int| 0 <= other < at implies symbol_at(lengths, upto, other)
                < symbol_at(lengths, upto, at) by {
                assert(symbol_at(lengths, upto, other) == symbol_at(lengths, upto - 1, other));
                assert(symbol_at(lengths, upto - 1, other) < symbol_at(lengths, upto - 1, at));
            }
        }
    }
}

/// The entries of an assignable table are prefix-free.
pub proof fn lemma_canonical_prefix_free(lengths: Seq<u8>)
    requires
        assignable(lengths),
    ensures
        prefix_free(entries(lengths, lengths.len() as int)),
{
    let n = lengths.len() as int;
    let list = entries(lengths, n);
    assert forall|i: int, j: int|
        0 <= i < list.len() && 0 <= j < list.len() && i != j implies apart(
        #[trigger] list[i],
        #[trigger] list[j],
    ) by {
        lemma_symbol_at(lengths, n, i);
        lemma_symbol_at(lengths, n, j);
        let s = symbol_at(lengths, n, i);
        let t = symbol_at(lengths, n, j);
        assert(s != t);
        if lengths[s] <= lengths[t] {
            lemma_entries_apart(lengths, s, t);
        } else {
            lemma_entries_apart(lengths, t, s);
        }
    }
}

/// The shares of the codes of up to `top` bits among the first `upto`
/// symbols, counted length by length.
pub open spec fn shares_by_length(lengths: Seq<u8>, upto: int, top: int) -> nat
    decreases top,
{
    if top <= 0 {
        0
    } else {
        shares_by_length(lengths, upto, top - 1) + count_len(lengths, top, upto) * share(
            top as u8,
        )
    }
}

/// One more symbol adds its share to the count of its length.
proof fn lemma_shares_by_length_step(lengths: Seq<u8>, upto: int, top: int)
    requires
        0 < upto <= lengths.len(),
        0 <= top <= MAX_BITS,
    ensures
        shares_by_length(lengths, upto, top) == shares_by_length(lengths, upto - 1, top) + if 1
            <= lengths[upto - 1] <= top {
            share(lengths[upto - 1])
        } else {
            0
        },
    decreases top,
{
    if top > 0 {
        lemma_shares_by_length_step(lengths, upto, top - 1);
        let before = count_len(lengths, top, upto - 1);
        let unit = share(top as u8);
        if lengths[upto - 1] == top {
            assert(count_len(lengths, top, upto) == before + 1);
            assert((before + 1) * unit == before * unit + unit) by (nonlinear_arith);
        } else {
            assert(count_len(lengths, top, upto) == before);
        }
    }
}

/// Counted symbol by symbol or length by length, the shares are the same.
proof fn lemma_shares_by_length_total(lengths: Seq<u8>, upto: int)
    requires
        0 <= upto <= lengths.len(),
        forall|i: int| 0 <= i < lengths.len() ==> lengths[i] <= MAX_BITS,
    ensures
        shares_by_length(lengths, upto, MAX_BITS as int) == kraft_sum(lengths, upto),
    decreases upto,
{
    if upto > 0 {
        lemma_shares_by_length_total(lengths, upto - 1);
        lemma_shares_by_length_step(lengths, upto, MAX_BITS as int);
    } else {
        lemma_shares_by_length_empty(lengths, MAX_BITS as int);
    }
}

/// No symbols take no share.
proof fn lemma_shares_by_length_empty(lengths: Seq<u8>, top: int)
    ensures
        shares_by_length(lengths, 0, top) == 0,
    decreases top,
{
    if top > 0 {
        lemma_shares_by_length_empty(lengths, top - 1);
        assert(count_len(lengths, top, 0) == 0);
        assert(0 * share(top as u8) == 0) by (nonlinear_arith);
    }
}

/// The shares grow with the lengths that are counted.
proof fn lemma_shares_by_length_grows(lengths: Seq<u8>, upto: int, low: int, top: int)
    requires
        0 <= low <= top,
    ensures
        shares_by_length(lengths, upto, low) <= shares_by_length(lengths, upto, top),
    decreases top - low,
{
    if low < top {
        lemma_shares_by_length_grows(lengths, upto, low, top - 1);
    }
}

/// The first code of a length, in units of the share of the longest code,
/// is the share that the shorter codes take.
proof fn lemma_first_code_shares(lengths: Seq<u8>, len: int)
    requires
        1 <= len <= MAX_BITS,
    ensures
        first_code(lengths, len) * share(len as u8) == shares_by_length(
            lengths,
            lengths.len() as int,
            len - 1,
        ),
    decreases len,
{
    let n = lengths.len() as int;
    if len == 1 {
        assert(first_code(lengths, 1) == 0);
        assert(0 * share(1) == 0) by (nonlinear_arith);
        assert(shares_by_length(lengths, n, 0) == 0);
    } else {
        lemma_first_code_shares(lengths, len - 1);
        let before = first_code(lengths, len - 1);
        let count = count_len(lengths, len - 1, n);
        let unit = share(len as u8);
        let wide = share((len - 1) as u8);
        lemma_pow2_double((MAX_BITS - len) as nat);
        assert(wide == 2 * unit);
        assert(first_code(lengths, len) == 2 * (before + count));
        assert((2 * (before + count)) * unit == before * wide + count * wide)
            by (nonlinear_arith)
            requires
                wide == 2 * unit,
        ;
    }
}

/// A table whose codes fill the code space, of no more than `MAX_SYMBOLS`
/// symbols and with no length above `MAX_BITS`, is assignable.
pub proof fn lemma_complete_is_assignable(lengths: Seq<u8>)
    requires
        lengths.len() <= MAX_SYMBOLS,
        forall|i: int| 0 <= i < lengths.len() ==> lengths[i] <= MAX_BITS,
        complete(lengths),
    ensures
        assignable(lengths),
{
    let n = lengths.len() as int;
    lemma_shares_by_length_total(lengths, n);
    assert forall|len: int| 1 <= len <= MAX_BITS implies fits_at(lengths, len) by {
        lemma_first_code_shares(lengths, len);
        lemma_shares_by_length_grows(lengths, n, len, MAX_BITS as int);
        let first = first_code(lengths, len);
        let count = count_len(lengths, len, n);
        let unit = share(len as u8);
        vstd::arithmetic::power2::lemma_pow2_adds(len as nat, (MAX_BITS - len) as nat);
        vstd::arithmetic::power2::lemma_pow2_pos((MAX_BITS - len) as nat);
        let whole = pow2(len as nat);
        assert((first + count) * unit == first * unit + count * unit) by (nonlinear_arith);
        assert((first + count) * unit <= whole * unit);
        assert(first + count <= whole) by (nonlinear_arith)
            requires
                (first + count) * unit <= whole * unit,
                unit > 0,
        ;
    }
}

/// A table whose codes fill the code space has a trie: the decoder can be
/// built for every complete code of no more than `MAX_SYMBOLS` symbols and
/// with no length above `MAX_BITS`.
pub proof fn lemma_complete_table_has_trie(lengths: Seq<u8>)
    requires
        lengths.len() <= MAX_SYMBOLS,
        forall|i: int| 0 <= i < lengths.len() ==> lengths[i] <= MAX_BITS,
        complete(lengths),
    ensures
        huffman_of(lengths) is Some,
{
    let n = lengths.len() as int;
    lemma_complete_is_assignable(lengths);
    lemma_canonical_prefix_free(lengths);
    lemma_entries_shares(lengths, n);
    lemma_complete_list_has_trie(entries(lengths, n), 0, 0);
}

/// A table whose codes fill the code space has two codes or more, and so
/// its trie branches at the root: no symbol is read without reading a bit.
pub proof fn lemma_complete_trie_branches(lengths: Seq<u8>)
    requires
        huffman_of(lengths) is Some,
        complete(lengths),
    ensures
        huffman_of(lengths)->0 is Node,
{
    let n = lengths.len() as int;
    let list = entries(lengths, n);
    lemma_entries_shares(lengths, n);
    vstd::arithmetic::power2::lemma_pow2_pos(MAX_BITS as nat);
    if list.len() == 1 {
        assert(shares(list, 1) == shares(list, 0) + share(list[0].0));
        assert(shares(list, 0) == 0);
        lemma_symbol_at(lengths, n, 0);
        assert(list[0].0 > 0);
        vstd::arithmetic::power2::lemma_pow2_strictly_increases(
            (MAX_BITS - list[0].0) as nat,
            MAX_BITS as nat,
        );
    }
}

} // verus!
