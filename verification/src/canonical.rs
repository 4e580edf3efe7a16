//! Canonical Huffman codes: the codes that a vector of code lengths stands
//! for, and the tree built from them.

use crate::bits::bits_window;
use crate::error::DecodeError;
use crate::prefix::lemma_canonical_insertable;
use crate::huffman::{
    code_path, conflicts, decode_symbol, lemma_decode_symbol_of_code, prefix_free, HuffmanTree,
};
use vstd::arithmetic::power2::*;
use vstd::bits::*;
use vstd::prelude::*;

verus! {

/// The number of symbols below `upto` that have the code length `len`.
pub open spec fn count_len(lengths: Seq<u32>, len: int, upto: int) -> nat
    decreases upto,
{
    if upto <= 0 {
        0
    } else {
        count_len(lengths, len, upto - 1) + if lengths[upto - 1] == len {
            1nat
        } else {
            0
        }
    }
}

/// The smallest code of length `len`: one more than the largest code of the
/// length before, with a zero bit appended. Symbols of length 0 have no code
/// and count for nothing.
pub open spec fn first_code(lengths: Seq<u32>, len: nat) -> nat
    decreases len,
{
    if len == 0 {
        0
    } else {
        2 * (first_code(lengths, (len - 1) as nat) + if len == 1 {
            0
        } else {
            count_len(lengths, len - 1, lengths.len() as int)
        })
    }
}

/// The canonical code of symbol `i`: codes of one length are consecutive, in
/// the order of their symbols.
pub open spec fn canonical_code(lengths: Seq<u32>, i: int) -> nat {
    first_code(lengths, lengths[i] as nat) + count_len(lengths, lengths[i] as int, i)
}

/// The low `n` bits of `code` in the opposite order.
pub open spec fn reversed_bits(code: nat, n: nat) -> nat
    decreases n,
{
    if n == 0 {
        0
    } else {
        2 * reversed_bits(code, (n - 1) as nat) + (code / pow2((n - 1) as nat)) % 2
    }
}

/// The code of symbol `i` as it is stored: bit-reversed within its length
/// where the stream hands out the least significant bit first.
pub open spec fn stored_code(lengths: Seq<u32>, reverse: bool, i: int) -> nat {
    if reverse {
        reversed_bits(canonical_code(lengths, i), lengths[i] as nat)
    } else {
        canonical_code(lengths, i)
    }
}

/// Every symbol below `upto` that has a code has one of at most 16 bits that
/// fits its length.
pub open spec fn codes_fit(lengths: Seq<u32>, upto: int) -> bool {
    forall|i: int|
        0 <= i < upto && #[trigger] lengths[i] > 0 ==> lengths[i] <= 16 && canonical_code(
            lengths,
            i,
        ) < pow2(lengths[i] as nat)
}

/// The codes of the symbols below `upto`, in the order of the symbols: length,
/// stored code and symbol of each symbol whose length is not 0.
pub open spec fn code_list(lengths: Seq<u32>, reverse: bool, upto: int) -> Seq<(u32, u32, u32)>
    decreases upto,
{
    if upto <= 0 {
        Seq::empty()
    } else if lengths[upto - 1] > 0 {
        code_list(lengths, reverse, upto - 1).push(
            (lengths[upto - 1], stored_code(lengths, reverse, upto - 1) as u32, (upto - 1) as u32),
        )
    } else {
        code_list(lengths, reverse, upto - 1)
    }
}

/// The table that holds the first `upto` codes of a list.
pub open spec fn table_of(codes: Seq<(u32, u32, u32)>, upto: int) -> Map<Seq<bool>, u32>
    decreases upto,
{
    if upto <= 0 {
        Map::empty()
    } else {
        table_of(codes, upto - 1).insert(
            code_path(codes[upto - 1].1 as u16, codes[upto - 1].0 as nat),
            codes[upto - 1].2,
        )
    }
}

/// The first `upto` codes of a list can stand in one tree: each has 1 to 16
/// bits and fits in 16 bits, and none clashes with one before it.
pub open spec fn insertable(codes: Seq<(u32, u32, u32)>, upto: int) -> bool
    decreases upto,
{
    upto <= 0 || {
        &&& insertable(codes, upto - 1)
        &&& 1 <= codes[upto - 1].0 <= 16
        &&& codes[upto - 1].1 <= 0xffff
        &&& !conflicts(
            table_of(codes, upto - 1),
            code_path(codes[upto - 1].1 as u16, codes[upto - 1].0 as nat),
        )
    }
}

/// Counting further never lowers a count.
proof fn lemma_count_len_grows(lengths: Seq<u32>, len: int, a: int, b: int)
    requires
        a <= b,
    ensures
        count_len(lengths, len, a) <= count_len(lengths, len, b),
        count_len(lengths, len, b) <= if b < 0 {
            0
        } else {
            b
        },
    decreases b,
{
    if b > 0 {
        if a < b {
            lemma_count_len_grows(lengths, len, a, b - 1);
        } else {
            lemma_count_len_grows(lengths, len, a - 1, b - 1);
        }
    }
}

/// A list that can stand in a tree gives a prefix code that holds each of its
/// entries.
pub proof fn lemma_table_of(codes: Seq<(u32, u32, u32)>, upto: int)
    requires
        0 <= upto <= codes.len(),
        insertable(codes, upto),
    ensures
        prefix_free(table_of(codes, upto)),
        forall|j: int|
            0 <= j < upto ==> {
                let p = #[trigger] code_path(codes[j].1 as u16, codes[j].0 as nat);
                table_of(codes, upto).dom().contains(p) && table_of(codes, upto)[p] == codes[j].2
            },
    decreases upto,
{
    if upto > 0 {
        lemma_table_of(codes, upto - 1);
        let before = table_of(codes, upto - 1);
        let p = code_path(codes[upto - 1].1 as u16, codes[upto - 1].0 as nat);
        let after = table_of(codes, upto);
        assert(after == before.insert(p, codes[upto - 1].2));
        assert forall|a: Seq<bool>, b: Seq<bool>|
            after.dom().contains(a) && after.dom().contains(b) && a.is_prefix_of(b) implies a
            == b by {
            if a != p && b != p {
                assert(before.dom().contains(a) && before.dom().contains(b));
            } else if a == p && b != p {
                assert(before.dom().contains(b));
            } else if b == p && a != p {
                assert(before.dom().contains(a));
            }
        }
        assert forall|j: int| 0 <= j < upto implies {
            let q = #[trigger] code_path(codes[j].1 as u16, codes[j].0 as nat);
            after.dom().contains(q) && after[q] == codes[j].2
        } by {
            let q = code_path(codes[j].1 as u16, codes[j].0 as nat);
            if j < upto - 1 {
                assert(before.dom().contains(q));
                if q == p {
                    assert(q.is_prefix_of(p)) by {
                        assert(q =~= p.subrange(0, q.len() as int));
                    }
                }
            }
        }
    }
}

/// Every symbol that has a code stands in the list of codes.
pub proof fn lemma_code_list_has(lengths: Seq<u32>, reverse: bool, upto: int, i: int) -> (j: int)
    requires
        0 <= i < upto <= lengths.len(),
        lengths[i] > 0,
    ensures
        0 <= j < code_list(lengths, reverse, upto).len(),
        code_list(lengths, reverse, upto)[j] == (
            lengths[i],
            stored_code(lengths, reverse, i) as u32,
            i as u32,
        ),
    decreases upto,
{
    if i == upto - 1 {
        code_list(lengths, reverse, upto - 1).len() as int
    } else {
        let j = lemma_code_list_has(lengths, reverse, upto - 1, i);
        j
    }
}

/// Every code of the list belongs to a symbol below `upto`.
pub proof fn lemma_code_list_symbols(lengths: Seq<u32>, reverse: bool, upto: int, j: int)
    requires
        upto <= u32::MAX,
        0 <= j < code_list(lengths, reverse, upto).len(),
    ensures
        0 <= code_list(lengths, reverse, upto)[j].2 < upto,
    decreases upto,
{
    if upto > 0 {
        if j < code_list(lengths, reverse, upto - 1).len() {
            lemma_code_list_symbols(lengths, reverse, upto - 1, j);
        }
    }
}

/// A stream that continues with the code of a symbol decodes to that symbol,
/// in the tree built from the canonical codes of `lengths`: for every vector
/// of lengths whose codes fit, with the codes stored from their most
/// significant bit down.
pub proof fn lemma_canonical_round_trip(lengths: Seq<u32>, i: int, bits: Seq<bool>, pos: int)
    requires
        lengths.len() <= u32::MAX,
        codes_fit(lengths, lengths.len() as int),
        0 <= i < lengths.len(),
        lengths[i] > 0,
        bits_window(bits, pos, lengths[i] as nat) == code_path(
            stored_code(lengths, true, i) as u16,
            lengths[i] as nat,
        ),
    ensures
        decode_symbol(
            table_of(
                code_list(lengths, true, lengths.len() as int),
                code_list(lengths, true, lengths.len() as int).len() as int,
            ),
            bits,
            pos,
        ) == Some((i as u32, lengths[i] as nat)),
{
    let n = lengths.len() as int;
    let list = code_list(lengths, true, n);
    lemma_canonical_insertable(lengths, list.len() as int);
    let j = lemma_code_list_has(lengths, true, n, i);
    lemma_table_of(list, list.len() as int);
    let table = table_of(list, list.len() as int);
    let p = code_path(list[j].1 as u16, list[j].0 as nat);
    lemma_stored_code_bound(lengths, true, i);
    assert(table.dom().contains(p) && table[p] == list[j].2);
    lemma_decode_symbol_of_code(table, bits, pos, lengths[i] as nat);
}

/// Reversing the low `n` bits gives a number of `n` bits.
pub proof fn lemma_reversed_bits_bound(code: nat, n: nat)
    ensures
        reversed_bits(code, n) < pow2(n),
    decreases n,
{
    if n == 0 {
        lemma2_to64();
    } else {
        lemma_reversed_bits_bound(code, (n - 1) as nat);
        lemma_pow2_unfold(n);
    }
}

/// A code that fits its length is stored in as many bits.
pub proof fn lemma_stored_code_bound(lengths: Seq<u32>, reverse: bool, i: int)
    requires
        0 <= i < lengths.len(),
        0 < lengths[i] <= 16,
        canonical_code(lengths, i) < pow2(lengths[i] as nat),
    ensures
        stored_code(lengths, reverse, i) < pow2(lengths[i] as nat),
        stored_code(lengths, reverse, i) <= 0xffff,
{
    lemma_reversed_bits_bound(canonical_code(lengths, i), lengths[i] as nat);
    lemma2_to64();
    if lengths[i] < 16 {
        lemma_pow2_strictly_increases(lengths[i] as nat, 16);
    }
}

/// The low `len` bits of `code` in the opposite order.
pub fn reverse_code(code: u32, len: u32) -> (r: u32)
    requires
        len <= 16,
    ensures
        r == reversed_bits(code as nat, len as nat),
{
    let mut r: u32 = 0;
    let mut k: u32 = 0;
    while k < len
        invariant
            k <= len <= 16,
            r == reversed_bits(code as nat, k as nat),
        decreases len - k,
    {
        proof {
            lemma_reversed_bits_bound(code as nat, k as nat);
            lemma2_to64();
            lemma_pow2_strictly_increases(k as nat, 16);
            lemma_u32_shr_is_div(code, k);
            let t = code >> k;
            assert(t & 1 == t % 2) by (bit_vector);
        }
        r = r * 2 + ((code >> k) & 1);
        k = k + 1;
    }
    r
}

/// The most that the running first code is let grow to: above every code of
/// 16 bits.
const CODE_CAP: u64 = 0x20000;

/// `x`, or the cap where `x` lies above it.
spec fn capped(x: nat) -> nat {
    if x < CODE_CAP {
        x
    } else {
        CODE_CAP as nat
    }
}

/// Works out the canonical codes of a vector of code lengths. Returns length,
/// code and symbol of every symbol whose length is not 0, in the order of the
/// symbols, the codes bit-reversed within their lengths where `reverse_bits`
/// is set. Fails where a length is above 16 or a code does not fit its
/// length, which is to say that the lengths ask for more codes than there are.
pub fn build_huffman_codes(bit_lengths: &Vec<u32>, reverse_bits: bool) -> (r: Result<
    Vec<(u32, u32, u32)>,
    DecodeError,
>)
    requires
        bit_lengths.len() <= u32::MAX,
    ensures
        match r {
            Ok(codes) => codes_fit(bit_lengths@, bit_lengths.len() as int) && codes@ == code_list(
                bit_lengths@,
                reverse_bits,
                bit_lengths.len() as int,
            ),
            Err(e) => !codes_fit(bit_lengths@, bit_lengths.len() as int) && e
                == DecodeError::BadCodeLengths,
        },
{
    let ghost lengths = bit_lengths@;
    let n = bit_lengths.len();
    let mut counts: Vec<u64> = vec![0u64; 17];
    let mut i: usize = 0;
    while i < n
        invariant
            lengths == bit_lengths@,
            n == bit_lengths.len(),
            n <= u32::MAX,
            i <= n,
            counts.len() == 17,
            forall|l: int| 0 <= l <= 16 ==> #[trigger] counts[l] == count_len(lengths, l, i as int),
            forall|j: int| 0 <= j < i ==> #[trigger] lengths[j] <= 16,
        decreases n - i,
    {
        let l = bit_lengths[i];
        if l > 16 {
            return Err(DecodeError::BadCodeLengths);
        }
        proof {
            lemma_count_len_grows(lengths, l as int, 0, i as int);
        }
        let c = counts[l as usize];
        counts.set(l as usize, c + 1);
        i = i + 1;
    }
    let mut next: Vec<u64> = vec![0u64; 17];
    let mut code: u64 = 0;
    let mut len: usize = 1;
    while len <= 16
        invariant
            lengths == bit_lengths@,
            n == bit_lengths.len(),
            n <= u32::MAX,
            counts.len() == 17,
            next.len() == 17,
            1 <= len <= 17,
            forall|l: int| 0 <= l <= 16 ==> #[trigger] counts[l] == count_len(lengths, l, n as int),
            code == capped(first_code(lengths, (len - 1) as nat)),
            forall|l: int| 1 <= l < len ==> #[trigger] next[l] == capped(first_code(lengths, l as nat)),
        decreases 17 - len,
    {
        let below: u64 = if len == 1 {
            0
        } else {
            counts[len - 1]
        };
        proof {
            lemma_count_len_grows(lengths, len - 1, 0, n as int);
        }
        let grown: u64 = (code + below) * 2;
        code = if grown < CODE_CAP {
            grown
        } else {
            CODE_CAP
        };
        next.set(len, code);
        len = len + 1;
    }
    let mut codes: Vec<(u32, u32, u32)> = Vec::new();
    let mut i: usize = 0;
    while i < n
        invariant
            lengths == bit_lengths@,
            n == bit_lengths.len(),
            n <= u32::MAX,
            i <= n,
            next.len() == 17,
            forall|j: int| 0 <= j < n ==> #[trigger] lengths[j] <= 16,
            forall|l: int|
                1 <= l <= 16 ==> #[trigger] next[l] == capped(first_code(lengths, l as nat))
                    + count_len(lengths, l, i as int),
            codes_fit(lengths, i as int),
            codes@ == code_list(lengths, reverse_bits, i as int),
        decreases n - i,
    {
        let l = bit_lengths[i];
        if l > 0 {
            let code = next[l as usize];
            proof {
                lemma2_to64();
                lemma_pow2_strictly_increases(l as nat, 17);
                lemma_u64_shl_is_mul(1u64, l as u64);
                lemma_count_len_grows(lengths, l as int, 0, i as int);
            }
            if code >= (1u64 << l) {
                return Err(DecodeError::BadCodeLengths);
            }
            next.set(l as usize, code + 1);
            let stored: u32 = if reverse_bits {
                reverse_code(code as u32, l)
            } else {
                code as u32
            };
            codes.push((l, stored, i as u32));
        }
        i = i + 1;
    }
    Ok(codes)
}

/// Builds the tree that holds a list of codes, each given by its length, its
/// code, walked from the least significant bit, and its symbol. Fails where
/// the codes are no prefix code, or one of them has not 1 to 16 bits or does
/// not fit in 16 bits.
pub fn build_huffman_tree(codes: &Vec<(u32, u32, u32)>) -> (r: Result<HuffmanTree, DecodeError>)
    ensures
        match r {
            Ok(tree) => insertable(codes@, codes.len() as int) && tree.wf() && tree@ == table_of(
                codes@,
                codes.len() as int,
            ),
            Err(e) => !insertable(codes@, codes.len() as int) && e == DecodeError::BadCodeLengths,
        },
{
    let mut tree = HuffmanTree::new();
    let mut i: usize = 0;
    while i < codes.len()
        invariant
            i <= codes.len(),
            tree.wf(),
            insertable(codes@, i as int),
            tree@ == table_of(codes@, i as int),
        decreases codes.len() - i,
    {
        let (len, code, symbol) = codes[i];
        if len > 16 || code > 0xffff {
            proof {
                if insertable(codes@, codes.len() as int) {
                    lemma_insertable_prefix(codes@, i + 1, codes.len() as int);
                }
            }
            return Err(DecodeError::BadCodeLengths);
        }
        if !tree.insert(code as u16, len as u16, symbol) {
            proof {
                if insertable(codes@, codes.len() as int) {
                    lemma_insertable_prefix(codes@, i + 1, codes.len() as int);
                }
            }
            return Err(DecodeError::BadCodeLengths);
        }
        i = i + 1;
    }
    Ok(tree)
}

/// What can stand in a tree as a whole can do so in part.
proof fn lemma_insertable_prefix(codes: Seq<(u32, u32, u32)>, a: int, b: int)
    requires
        a <= b,
        insertable(codes, b),
    ensures
        insertable(codes, a),
    decreases b,
{
    if a < b && b > 0 {
        lemma_insertable_prefix(codes, a, b - 1);
    }
}

} // verus!
