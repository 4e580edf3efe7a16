//! Canonical codes are a prefix code: where every code fits its length, no
//! code is the beginning of another, so that all of them can stand in one
//! tree.

use crate::canonical::{
    canonical_code, code_list, codes_fit, count_len, first_code, insertable,
    lemma_code_list_symbols, lemma_reversed_bits_bound, lemma_stored_code_bound, reversed_bits,
    stored_code, table_of,
};
use crate::huffman::{code_path, conflicts};
use vstd::arithmetic::div_mod::*;
use vstd::arithmetic::mul::*;
use vstd::arithmetic::power2::*;
use vstd::prelude::*;

verus! {

/// The `n` bits of `code` from the most significant one down.
pub open spec fn msb_path(code: nat, n: nat) -> Seq<bool> {
    Seq::new(n, |k: int| (code / pow2((n - 1 - k) as nat)) % 2 == 1)
}

/// Bit `k` of the reversed number is bit `n - 1 - k` of the number.
proof fn lemma_reversed_bit(code: nat, n: nat, k: nat)
    requires
        k < n,
    ensures
        (reversed_bits(code, n) / pow2(k)) % 2 == (code / pow2((n - 1 - k) as nat)) % 2,
    decreases n,
{
    let r = reversed_bits(code, (n - 1) as nat);
    let b = (code / pow2((n - 1) as nat)) % 2;
    assert(reversed_bits(code, n) == 2 * r + b);
    if k == 0 {
        lemma2_to64();
    } else {
        lemma_reversed_bit(code, (n - 1) as nat, (k - 1) as nat);
        let p = pow2((k - 1) as nat);
        lemma_pow2_unfold(k);
        lemma_pow2_pos((k - 1) as nat);
        lemma_div_denominator((2 * r + b) as int, 2, p as int);
        assert((2 * r + b) / 2 == r);
    }
}

/// The path of a code that is stored reversed is the code from its most
/// significant bit down.
pub proof fn lemma_reversed_path(code: nat, n: nat)
    requires
        n <= 16,
    ensures
        code_path(reversed_bits(code, n) as u16, n) == msb_path(code, n),
{
    lemma_reversed_bits_bound(code, n);
    lemma2_to64();
    if n < 16 {
        lemma_pow2_strictly_increases(n, 16);
    }
    let stored = reversed_bits(code, n) as u16;
    assert forall|k: int| 0 <= k < n implies code_path(stored, n)[k] == msb_path(code, n)[k] by {
        lemma_reversed_bit(code, n, k as nat);
    }
    assert(code_path(stored, n) =~= msb_path(code, n));
}

/// Two numbers of `n` bits with the same bits are one number.
proof fn lemma_same_bits(a: nat, b: nat, n: nat)
    requires
        a < pow2(n),
        b < pow2(n),
        forall|m: nat| m < n ==> (a / pow2(m)) % 2 == (b / pow2(m)) % 2,
    ensures
        a == b,
    decreases n,
{
    lemma2_to64();
    if n > 0 {
        lemma_pow2_unfold(n);
        assert((a / pow2(0)) % 2 == (b / pow2(0)) % 2);
        assert forall|m: nat| m < n - 1 implies ((a / 2) / pow2(m)) % 2 == ((b / 2) / pow2(m))
            % 2 by {
            lemma_pow2_unfold(m + 1);
            lemma_pow2_pos(m);
            lemma_div_denominator(a as int, 2, pow2(m) as int);
            lemma_div_denominator(b as int, 2, pow2(m) as int);
            assert((a / pow2(m + 1)) % 2 == (b / pow2(m + 1)) % 2);
        }
        lemma_same_bits(a / 2, b / 2, (n - 1) as nat);
    }
}

/// Where the bits of a number are the first bits of a longer one, the
/// longer one without its last bits is the number.
proof fn lemma_prefix_quotient(a: nat, la: nat, b: nat, lb: nat)
    requires
        a < pow2(la),
        b < pow2(lb),
        la <= lb,
        msb_path(a, la).is_prefix_of(msb_path(b, lb)),
    ensures
        b / pow2((lb - la) as nat) == a,
{
    let d = (lb - la) as nat;
    let q = b / pow2(d);
    lemma_pow2_pos(d);
    lemma_pow2_adds(d, la);
    lemma_mul_is_commutative(pow2(d) as int, pow2(la) as int);
    lemma_div_by_multiple_is_strongly_ordered(b as int, (pow2(la) * pow2(d)) as int, pow2(la) as int, pow2(d) as int);
    lemma_div_by_multiple(pow2(la) as int, pow2(d) as int);
    assert(q < pow2(la));
    assert forall|m: nat| m < la implies (a / pow2(m)) % 2 == (q / pow2(m)) % 2 by {
        let k = la - 1 - m;
        assert(msb_path(a, la)[k] == msb_path(b, lb)[k]);
        assert((la - 1 - k) as nat == m);
        assert((lb - 1 - k) as nat == d + m);
        lemma_pow2_pos(m);
        lemma_pow2_adds(d, m);
        lemma_div_denominator(b as int, pow2(d) as int, pow2(m) as int);
    }
    lemma_same_bits(a, q, la);
}

/// A symbol of the length `len` is counted among the symbols of that length.
proof fn lemma_count_len_step(lengths: Seq<u32>, len: int, i: int, upto: int)
    requires
        0 <= i < upto,
        lengths[i] == len,
    ensures
        count_len(lengths, len, i) < count_len(lengths, len, upto),
    decreases upto,
{
    if i < upto - 1 {
        lemma_count_len_step(lengths, len, i, upto - 1);
    }
}

/// The first code of a greater length lies above every code of a smaller
/// one with zero bits appended.
proof fn lemma_first_code_grows(lengths: Seq<u32>, l: nat, d: nat)
    requires
        l >= 1,
        d >= 1,
    ensures
        first_code(lengths, l + d) >= pow2(d) * (first_code(lengths, l) + count_len(
            lengths,
            l as int,
            lengths.len() as int,
        )),
    decreases d,
{
    let x = first_code(lengths, l) + count_len(lengths, l as int, lengths.len() as int);
    lemma2_to64();
    if d > 1 {
        lemma_first_code_grows(lengths, l, (d - 1) as nat);
        lemma_pow2_unfold(d);
        let before = first_code(lengths, (l + d - 1) as nat);
        let half = pow2((d - 1) as nat);
        assert(first_code(lengths, l + d) >= 2 * before);
        assert(2 * (half * x) == (2 * half) * x) by (nonlinear_arith);
    }
}

/// The codes of two symbols differ, also where the longer one is cut to the
/// length of the shorter.
proof fn lemma_codes_differ(lengths: Seq<u32>, i: int, j: int)
    requires
        codes_fit(lengths, lengths.len() as int),
        0 <= i < lengths.len(),
        0 <= j < lengths.len(),
        i != j,
        0 < lengths[i] <= lengths[j],
    ensures
        canonical_code(lengths, j) / pow2((lengths[j] - lengths[i]) as nat) != canonical_code(
            lengths,
            i,
        ),
{
    let n = lengths.len() as int;
    let li = lengths[i] as nat;
    let lj = lengths[j] as nat;
    let d = (lj - li) as nat;
    lemma2_to64();
    if d == 0 {
        if i < j {
            lemma_count_len_step(lengths, li as int, i, j);
        } else {
            lemma_count_len_step(lengths, li as int, j, i);
        }
    } else {
        lemma_count_len_step(lengths, li as int, i, n);
        lemma_first_code_grows(lengths, li, d);
        let x = first_code(lengths, li) + count_len(lengths, li as int, n);
        lemma_pow2_pos(d);
        lemma_div_is_ordered((pow2(d) * x) as int, canonical_code(lengths, j) as int, pow2(d) as int);
        lemma_div_multiples_vanish(x as int, pow2(d) as int);
    }
}

/// The path of one symbol's code is not the beginning of another's.
pub proof fn lemma_paths_apart(lengths: Seq<u32>, i: int, j: int)
    requires
        codes_fit(lengths, lengths.len() as int),
        0 <= i < lengths.len(),
        0 <= j < lengths.len(),
        i != j,
        lengths[i] > 0,
        lengths[j] > 0,
    ensures
        !code_path(stored_code(lengths, true, i) as u32 as u16, lengths[i] as nat).is_prefix_of(
            code_path(stored_code(lengths, true, j) as u32 as u16, lengths[j] as nat),
        ),
{
    let li = lengths[i] as nat;
    let lj = lengths[j] as nat;
    let ci = canonical_code(lengths, i);
    let cj = canonical_code(lengths, j);
    let pi = code_path(stored_code(lengths, true, i) as u32 as u16, li);
    let pj = code_path(stored_code(lengths, true, j) as u32 as u16, lj);
    lemma_stored_code_bound(lengths, true, i);
    lemma_stored_code_bound(lengths, true, j);
    lemma_reversed_path(ci, li);
    lemma_reversed_path(cj, lj);
    if pi.is_prefix_of(pj) {
        assert(li <= lj);
        lemma_prefix_quotient(ci, li, cj, lj);
        lemma_codes_differ(lengths, i, j);
    }
}

/// The codes of a list stand in the order of their symbols.
proof fn lemma_code_list_order(lengths: Seq<u32>, reverse: bool, upto: int, a: int, b: int)
    requires
        upto <= u32::MAX,
        0 <= a < b < code_list(lengths, reverse, upto).len(),
    ensures
        code_list(lengths, reverse, upto)[a].2 < code_list(lengths, reverse, upto)[b].2,
    decreases upto,
{
    if upto > 0 {
        let before = code_list(lengths, reverse, upto - 1);
        if b < before.len() {
            lemma_code_list_order(lengths, reverse, upto - 1, a, b);
        } else {
            lemma_code_list_symbols(lengths, reverse, upto - 1, a);
        }
    }
}

/// Each code of a list is the code of its symbol.
proof fn lemma_code_list_entry(lengths: Seq<u32>, reverse: bool, upto: int, j: int)
    requires
        upto <= u32::MAX,
        0 <= j < code_list(lengths, reverse, upto).len(),
    ensures
        ({
            let e = code_list(lengths, reverse, upto)[j];
            &&& 0 <= e.2 < upto
            &&& lengths[e.2 as int] > 0
            &&& e.0 == lengths[e.2 as int]
            &&& e.1 == stored_code(lengths, reverse, e.2 as int) as u32
        }),
    decreases upto,
{
    if upto > 0 {
        if j < code_list(lengths, reverse, upto - 1).len() {
            lemma_code_list_entry(lengths, reverse, upto - 1, j);
        }
    }
}

/// Every code of a table is one of the codes that it was made of.
proof fn lemma_table_dom(codes: Seq<(u32, u32, u32)>, upto: int, q: Seq<bool>) -> (j: int)
    requires
        table_of(codes, upto).dom().contains(q),
    ensures
        0 <= j < upto,
        q == code_path(codes[j].1 as u16, codes[j].0 as nat),
    decreases upto,
{
    if upto <= 0 {
        0
    } else if q == code_path(codes[upto - 1].1 as u16, codes[upto - 1].0 as nat) {
        upto - 1
    } else {
        lemma_table_dom(codes, upto - 1, q)
    }
}

/// Where every code fits its length, the first `upto` canonical codes, each
/// stored from its most significant bit down, can stand in one tree.
pub proof fn lemma_canonical_insertable(lengths: Seq<u32>, upto: int)
    requires
        lengths.len() <= u32::MAX,
        codes_fit(lengths, lengths.len() as int),
        0 <= upto <= code_list(lengths, true, lengths.len() as int).len(),
    ensures
        insertable(code_list(lengths, true, lengths.len() as int), upto),
    decreases upto,
{
    let n = lengths.len() as int;
    let list = code_list(lengths, true, n);
    if upto > 0 {
        lemma_canonical_insertable(lengths, upto - 1);
        let e = list[upto - 1];
        lemma_code_list_entry(lengths, true, n, upto - 1);
        let s = e.2 as int;
        lemma_stored_code_bound(lengths, true, s);
        let p = code_path(e.1 as u16, e.0 as nat);
        let table = table_of(list, upto - 1);
        if conflicts(table, p) {
            let q = choose|q: Seq<bool>|
                table.dom().contains(q) && (q.is_prefix_of(p) || p.is_prefix_of(q));
            let j = lemma_table_dom(list, upto - 1, q);
            lemma_code_list_entry(lengths, true, n, j);
            lemma_code_list_order(lengths, true, n, j, upto - 1);
            let t = list[j].2 as int;
            lemma_stored_code_bound(lengths, true, t);
            lemma_paths_apart(lengths, s, t);
            lemma_paths_apart(lengths, t, s);
            assert(false);
        }
    }
}

} // verus!
