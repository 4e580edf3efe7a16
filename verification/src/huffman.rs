//! Prefix codes held in a binary trie, and symbol lookup from a bit stream.

use crate::bits::{bit_at, bits_value, bits_window, lemma_bits_value_bit, BitBuffer};
use vstd::arithmetic::div_mod::*;
use vstd::arithmetic::power2::*;
use vstd::bits::*;
use vstd::prelude::*;

verus! {

/// The longest code, in bits, that a tree can hold.
pub const MAX_CODE_BITS: u16 = 16;

/// The path that a code of `n` bits takes through the tree: step `k` goes by
/// bit `k` of `code`, counted from the least significant bit.
pub open spec fn code_path(code: u16, n: nat) -> Seq<bool> {
    Seq::new(n, |k: int| (code as int / pow2(k as nat) as int) % 2 == 1)
}

/// No code of the table is the beginning of another.
pub open spec fn prefix_free(codes: Map<Seq<bool>, u32>) -> bool {
    forall|p: Seq<bool>, q: Seq<bool>|
        codes.dom().contains(p) && codes.dom().contains(q) && p.is_prefix_of(q) ==> p == q
}

/// Some code of the table begins with `path`, or `path` begins with it.
pub open spec fn conflicts(codes: Map<Seq<bool>, u32>, path: Seq<bool>) -> bool {
    exists|q: Seq<bool>|
        codes.dom().contains(q) && (q.is_prefix_of(path) || path.is_prefix_of(q))
}

/// The length of the shortest code, of at least `k` bits, that the stream
/// continues with at `pos`.
pub open spec fn first_match(codes: Map<Seq<bool>, u32>, bits: Seq<bool>, pos: int, k: nat) -> Option<
    nat,
>
    decreases 17 - k,
{
    if k > 16 {
        None
    } else if codes.dom().contains(bits_window(bits, pos, k)) {
        Some(k)
    } else {
        first_match(codes, bits, pos, k + 1)
    }
}

/// The symbol whose code the stream continues with at `pos`, and the length of
/// that code; `None` where no code of the table matches.
pub open spec fn decode_symbol(codes: Map<Seq<bool>, u32>, bits: Seq<bool>, pos: int) -> Option<
    (u32, nat),
> {
    match first_match(codes, bits, pos, 1) {
        Some(k) => Some((codes[bits_window(bits, pos, k)], k)),
        None => None,
    }
}

/// Where no code of `k` to 16 bits matches, there is no match from `k` on.
pub proof fn lemma_first_match_none(codes: Map<Seq<bool>, u32>, bits: Seq<bool>, pos: int, k: nat)
    requires
        forall|j: nat| k <= j <= 16 ==> !codes.dom().contains(#[trigger] bits_window(bits, pos, j)),
    ensures
        first_match(codes, bits, pos, k) is None,
    decreases 17 - k,
{
    if k <= 16 {
        lemma_first_match_none(codes, bits, pos, k + 1);
    }
}

/// In a prefix-free table a code that the stream continues with is the one
/// that lookup finds.
pub proof fn lemma_decode_symbol_of_code(
    codes: Map<Seq<bool>, u32>,
    bits: Seq<bool>,
    pos: int,
    n: nat,
)
    requires
        prefix_free(codes),
        1 <= n <= 16,
        codes.dom().contains(bits_window(bits, pos, n)),
    ensures
        decode_symbol(codes, bits, pos) == Some((codes[bits_window(bits, pos, n)], n)),
{
    lemma_first_match_of_code(codes, bits, pos, n, 1);
}

proof fn lemma_first_match_of_code(
    codes: Map<Seq<bool>, u32>,
    bits: Seq<bool>,
    pos: int,
    n: nat,
    k: nat,
)
    requires
        prefix_free(codes),
        1 <= k <= n <= 16,
        codes.dom().contains(bits_window(bits, pos, n)),
    ensures
        first_match(codes, bits, pos, k) == Some(n),
    decreases n - k,
{
    if k < n {
        let p = bits_window(bits, pos, k);
        let q = bits_window(bits, pos, n);
        assert(p.is_prefix_of(q)) by {
            assert(p =~= q.subrange(0, p.len() as int));
        }
        assert(p != q) by {
            assert(p.len() != q.len());
        }
        lemma_first_match_of_code(codes, bits, pos, n, k + 1);
    }
}

/// One node of the trie: its two children, by index, and the symbol of the
/// code that ends here.
#[derive(Clone, Copy, Debug)]
pub struct HuffmanNode {
    pub left: Option<usize>,
    pub right: Option<usize>,
    pub val: Option<u32>,
}

impl HuffmanNode {
    /// A node without children or symbol.
    pub fn new() -> (r: HuffmanNode)
        ensures
            r.left is None,
            r.right is None,
            r.val is None,
    {
        HuffmanNode { left: None, right: None, val: None }
    }
}

/// The child that a node has for one bit: the right one for a set bit.
pub open spec fn child(node: HuffmanNode, bit: bool) -> Option<usize> {
    if bit {
        node.right
    } else {
        node.left
    }
}

/// The nodes form a tree below node 0: `paths[i]` is the way from the root to
/// node `i`, `parents[i]` the node above it.
spec fn structure(nodes: Seq<HuffmanNode>, paths: Seq<Seq<bool>>, parents: Seq<int>) -> bool {
    &&& nodes.len() >= 1
    &&& paths.len() == nodes.len()
    &&& parents.len() == nodes.len()
    &&& paths[0].len() == 0
    &&& forall|j: int|
        1 <= j < nodes.len() ==> {
            &&& 0 <= #[trigger] parents[j] < j
            &&& paths[j].len() >= 1
            &&& paths[j].drop_last() == paths[parents[j]]
            &&& child(nodes[parents[j]], paths[j].last()) == Some(j as usize)
        }
    &&& forall|i: int, b: bool|
        0 <= i < nodes.len() && (#[trigger] child(nodes[i], b)) is Some ==> {
            let c = child(nodes[i], b).unwrap() as int;
            &&& 0 < c < nodes.len()
            &&& parents[c] == i
            &&& paths[c].last() == b
        }
    &&& forall|i: int, j: int|
        0 <= i < nodes.len() && 0 <= j < nodes.len() && #[trigger] paths[i] == #[trigger] paths[j]
            ==> i == j
    &&& forall|i: int| 0 <= i < nodes.len() ==> (#[trigger] paths[i]).len() <= 16
}

/// A symbol sits only on a node without children.
spec fn symbols_on_leaves(nodes: Seq<HuffmanNode>) -> bool {
    &&& nodes[0].val is None
    &&& forall|i: int|
        0 <= i < nodes.len() && (#[trigger] nodes[i]).val is Some ==> nodes[i].left is None
            && nodes[i].right is None
}

/// Every node but `skip` and the root has a symbol or a child.
spec fn no_dead_ends(nodes: Seq<HuffmanNode>, skip: int) -> bool {
    forall|i: int|
        1 <= i < nodes.len() && i != skip && (#[trigger] nodes[i]).val is None ==> nodes[i].left is Some
            || nodes[i].right is Some
}

/// Node `i` carries the symbol of the code `p`.
spec fn is_code_node(nodes: Seq<HuffmanNode>, paths: Seq<Seq<bool>>, i: int, p: Seq<bool>) -> bool {
    0 <= i < nodes.len() && paths[i] == p && nodes[i].val is Some
}

/// The table that the trie holds: each code with its symbol.
spec fn codes_of(nodes: Seq<HuffmanNode>, paths: Seq<Seq<bool>>) -> Map<Seq<bool>, u32> {
    Map::new(
        |p: Seq<bool>| exists|i: int| is_code_node(nodes, paths, i, p),
        |p: Seq<bool>| nodes[choose|i: int| is_code_node(nodes, paths, i, p)].val.unwrap(),
    )
}

/// The node `d` steps below the root on the way to node `i`.
proof fn lemma_ancestor(
    nodes: Seq<HuffmanNode>,
    paths: Seq<Seq<bool>>,
    parents: Seq<int>,
    i: int,
    d: int,
) -> (a: int)
    requires
        structure(nodes, paths, parents),
        0 <= i < nodes.len(),
        0 <= d <= paths[i].len(),
    ensures
        0 <= a < nodes.len(),
        paths[a] == paths[i].take(d),
    decreases paths[i].len(),
{
    if d == paths[i].len() {
        assert(paths[i].take(d) =~= paths[i]);
        i
    } else {
        assert(i != 0);
        let m = parents[i];
        assert(paths[m] == paths[i].drop_last());
        let a = lemma_ancestor(nodes, paths, parents, m, d);
        assert(paths[i].drop_last().take(d) =~= paths[i].take(d));
        a
    }
}

/// Below a node that has a symbol or a child there is a node with a symbol.
proof fn lemma_symbol_below(
    nodes: Seq<HuffmanNode>,
    paths: Seq<Seq<bool>>,
    parents: Seq<int>,
    i: int,
) -> (t: int)
    requires
        structure(nodes, paths, parents),
        no_dead_ends(nodes, -1),
        0 <= i < nodes.len(),
        nodes[i].val is Some || nodes[i].left is Some || nodes[i].right is Some,
    ensures
        0 <= t < nodes.len(),
        nodes[t].val is Some,
        paths[i].is_prefix_of(paths[t]),
    decreases nodes.len() - i,
{
    if nodes[i].val is Some {
        assert(paths[i] =~= paths[i].subrange(0, paths[i].len() as int));
        i
    } else {
        let b = nodes[i].right is Some;
        assert(child(nodes[i], b) is Some);
        let c = child(nodes[i], b).unwrap() as int;
        assert(parents[c] == i);
        let t = lemma_symbol_below(nodes, paths, parents, c);
        assert(paths[c].drop_last() == paths[i]);
        assert(paths[i] =~= paths[t].subrange(0, paths[i].len() as int)) by {
            assert(paths[c] =~= paths[t].subrange(0, paths[c].len() as int));
            assert(paths[i] =~= paths[c].subrange(0, paths[c].len() - 1));
        }
        t
    }
}

/// Where a node lacks the child for `b`, no node lies on or below that way.
proof fn lemma_nothing_beyond(
    nodes: Seq<HuffmanNode>,
    paths: Seq<Seq<bool>>,
    parents: Seq<int>,
    cur: int,
    b: bool,
)
    requires
        structure(nodes, paths, parents),
        0 <= cur < nodes.len(),
        child(nodes[cur], b) is None,
    ensures
        forall|i: int|
            0 <= i < nodes.len() ==> !paths[cur].push(b).is_prefix_of(#[trigger] paths[i]),
{
    let w = paths[cur].push(b);
    assert forall|i: int| 0 <= i < nodes.len() implies !w.is_prefix_of(#[trigger] paths[i]) by {
        if w.is_prefix_of(paths[i]) {
            let a = lemma_ancestor(nodes, paths, parents, i, w.len() as int);
            assert(paths[a] =~= w);
            assert(a != 0);
            let m = parents[a];
            assert(paths[m] =~= paths[cur]) by {
                assert(w.drop_last() =~= paths[cur]);
            }
            assert(m == cur);
            assert(paths[a].last() == b);
        }
    }
}

/// A trie of codes of up to 16 bits, each ending in a symbol. Node 0 is the
/// root. The codes form a prefix code: a code is added only where it neither
/// begins with a code of the tree nor is the beginning of one.
pub struct HuffmanTree {
    nodes: Vec<HuffmanNode>,
    paths: Ghost<Seq<Seq<bool>>>,
    parents: Ghost<Seq<int>>,
}

impl View for HuffmanTree {
    type V = Map<Seq<bool>, u32>;

    /// The codes of the tree, each with its symbol.
    closed spec fn view(&self) -> Map<Seq<bool>, u32> {
        codes_of(self.nodes@, self.paths@)
    }
}

impl HuffmanTree {
    /// The nodes form a tree, and symbols sit exactly at the ends of its
    /// branches.
    pub closed spec fn wf(&self) -> bool {
        &&& structure(self.nodes@, self.paths@, self.parents@)
        &&& symbols_on_leaves(self.nodes@)
        &&& no_dead_ends(self.nodes@, -1)
    }

    /// The codes of a well-formed tree are a prefix code of at most 16 bits
    /// each, and none is empty.
    pub proof fn lemma_prefix_code(&self)
        requires
            self.wf(),
        ensures
            prefix_free(self@),
            forall|p: Seq<bool>| self@.dom().contains(p) ==> 1 <= p.len() <= 16,
    {
        let nodes = self.nodes@;
        let paths = self.paths@;
        let parents = self.parents@;
        assert forall|p: Seq<bool>, q: Seq<bool>|
            self@.dom().contains(p) && self@.dom().contains(q) && p.is_prefix_of(q) implies p
            == q by {
            let i = choose|i: int| is_code_node(nodes, paths, i, p);
            let j = choose|j: int| is_code_node(nodes, paths, j, q);
            if p.len() < q.len() {
                let a = lemma_ancestor(nodes, paths, parents, j, p.len() as int + 1);
                assert(a != 0);
                let m = parents[a];
                assert(paths[m] =~= p) by {
                    assert(paths[a].drop_last() =~= q.take(p.len() as int));
                }
                assert(m == i);
                assert(child(nodes[m], paths[a].last()) is Some);
            } else {
                assert(p =~= q);
            }
        }
        assert forall|p: Seq<bool>| self@.dom().contains(p) implies 1 <= p.len() <= 16 by {
            let i = choose|i: int| is_code_node(nodes, paths, i, p);
            assert(i != 0);
            assert(0 <= parents[i] < i);
            assert(paths[i].len() <= 16);
        }
    }

    /// A tree without codes: the root alone.
    pub fn new() -> (r: HuffmanTree)
        ensures
            r.wf(),
            r@ == Map::<Seq<bool>, u32>::empty(),
    {
        let mut nodes: Vec<HuffmanNode> = Vec::new();
        nodes.push(HuffmanNode::new());
        let ghost paths = seq![Seq::<bool>::empty()];
        let ghost parents = seq![-1int];
        let r = HuffmanTree { nodes, paths: Ghost(paths), parents: Ghost(parents) };
        assert(r@ =~= Map::<Seq<bool>, u32>::empty());
        r
    }

    /// Appends a node without children or symbol, `path` being the way to it
    /// and `parent` the node above, and returns its index.
    fn new_node(&mut self, Ghost(path): Ghost<Seq<bool>>, Ghost(parent): Ghost<int>) -> (idx: usize)
        ensures
            idx == old(self).nodes@.len(),
            final(self).nodes@ == old(self).nodes@.push(
                HuffmanNode { left: None, right: None, val: None },
            ),
            final(self).paths@ == old(self).paths@.push(path),
            final(self).parents@ == old(self).parents@.push(parent),
    {
        let result = self.nodes.len();
        self.nodes.push(HuffmanNode::new());
        self.paths = Ghost(self.paths@.push(path));
        self.parents = Ghost(self.parents@.push(parent));
        result
    }

    /// Looks up the symbol whose code the reader's stream continues with, and
    /// consumes that code. Where no code matches, nothing is consumed.
    pub fn find(&self, reader: &mut BitBuffer) -> (r: Option<u32>)
        requires
            self.wf(),
            old(reader).wf(),
        ensures
            final(reader).wf(),
            final(reader).data() == old(reader).data(),
            final(reader).msb_first() == old(reader).msb_first(),
            match decode_symbol(self@, old(reader).bits(), old(reader).bit_pos()) {
                Some((symbol, len)) => r == Some(symbol) && final(reader).bit_pos() == old(
                    reader,
                ).bit_pos_after(len),
                None => r is None && final(reader).bit_pos() == old(reader).bit_pos(),
            },
    {
        let window: u32 = reader.peek(16);
        let ghost bits = reader.bits();
        let ghost pos = reader.bit_pos();
        let ghost nodes = self.nodes@;
        let ghost paths = self.paths@;
        let ghost parents = self.parents@;
        let mut cur: usize = 0;
        let mut k: u32 = 0;
        proof {
            assert(bits_window(bits, pos, 0) =~= paths[0]);
        }
        while k < 16
            invariant
                self.wf(),
                nodes == self.nodes@,
                paths == self.paths@,
                parents == self.parents@,
                reader.wf(),
                reader.bits() == bits,
                reader.bit_pos() == pos,
                bits == old(reader).bits(),
                pos == old(reader).bit_pos(),
                reader.data() == old(reader).data(),
                reader.msb_first() == old(reader).msb_first(),
                window == bits_value(bits, pos, 16),
                k <= 16,
                0 <= cur < nodes.len(),
                paths[cur as int] == bits_window(bits, pos, k as nat),
                nodes[cur as int].val is None,
                first_match(self@, bits, pos, 1) == first_match(self@, bits, pos, (k + 1) as nat),
            decreases 16 - k,
        {
            let bit: u32 = (window >> k) & 1;
            let ghost b = bit == 1;
            let ghost w = bits_window(bits, pos, (k + 1) as nat);
            proof {
                lemma_bits_value_bit(bits, pos, 16, k as nat);
                lemma_u32_shr_is_div(window, k);
                let t = window >> k;
                assert(t & 1 == t % 2) by (bit_vector);
                assert(b == (bit_at(bits, pos + k) == 1));
                assert(w =~= paths[cur as int].push(b));
            }
            let node = self.nodes[cur];
            let next = if bit == 1 {
                node.right
            } else {
                node.left
            };
            match next {
                None => {
                    proof {
                        lemma_nothing_beyond(nodes, paths, parents, cur as int, b);
                        assert forall|j: nat| k + 1 <= j <= 16 implies !self@.dom().contains(
                            #[trigger] bits_window(bits, pos, j),
                        ) by {
                            let q = bits_window(bits, pos, j);
                            if self@.dom().contains(q) {
                                let i = choose|i: int| is_code_node(nodes, paths, i, q);
                                assert(w =~= q.subrange(0, w.len() as int));
                                assert(w.is_prefix_of(paths[i]));
                            }
                        }
                        lemma_first_match_none(self@, bits, pos, (k + 1) as nat);
                    }
                    return None;
                },
                Some(idx) => {
                    proof {
                        assert(child(nodes[cur as int], b) == Some(idx));
                        assert(paths[idx as int].drop_last() == paths[cur as int]);
                        assert(paths[idx as int] =~= paths[idx as int].drop_last().push(
                            paths[idx as int].last(),
                        ));
                        assert(paths[idx as int] =~= w);
                    }
                    let found = self.nodes[idx].val;
                    match found {
                        Some(symbol) => {
                            proof {
                                assert(is_code_node(nodes, paths, idx as int, w));
                                let i = choose|i: int| is_code_node(nodes, paths, i, w);
                                assert(i == idx);
                            }
                            reader.consume(k + 1);
                            return Some(symbol);
                        },
                        None => {
                            proof {
                                if self@.dom().contains(w) {
                                    let i = choose|i: int| is_code_node(nodes, paths, i, w);
                                    assert(i == idx);
                                }
                            }
                            cur = idx;
                            k = k + 1;
                        },
                    }
                },
            }
        }
        None
    }

    /// Adds the code made of the low `bit_length` bits of `code`, walked from
    /// the least significant bit, with the symbol `val`. Returns `false`, and
    /// leaves the tree as it was, where the length is not within 1 to 16 or
    /// the code would clash with a code of the tree: one of the two beginning
    /// with the other.
    pub fn insert(&mut self, code: u16, bit_length: u16, val: u32) -> (ok: bool)
        requires
            old(self).wf(),
        ensures
            final(self).wf(),
            ok == (1 <= bit_length <= 16 && !conflicts(
                old(self)@,
                code_path(code, bit_length as nat),
            )),
            final(self)@ == if ok {
                old(self)@.insert(code_path(code, bit_length as nat), val)
            } else {
                old(self)@
            },
    {
        if bit_length == 0 || bit_length > MAX_CODE_BITS {
            return false;
        }
        let ghost path = code_path(code, bit_length as nat);
        let ghost nodes0 = self.nodes@;
        let ghost paths0 = self.paths@;
        let ghost parents0 = self.parents@;
        let ghost codes0 = self@;
        let mut c: u16 = code;
        let mut cur: usize = 0;
        let mut k: u16 = 0;
        let mut stop: bool = false;
        proof {
            lemma2_to64();
            assert(path.take(0) =~= paths0[0]);
        }
        // Walk down the nodes that are there.
        while k < bit_length && !stop
            invariant
                self.wf(),
                self.nodes@ == nodes0,
                self.paths@ == paths0,
                self.parents@ == parents0,
                self@ == codes0,
                *self == *old(self),
                path == code_path(code, bit_length as nat),
                1 <= bit_length <= 16,
                k <= bit_length,
                0 <= cur < nodes0.len(),
                paths0[cur as int] == path.take(k as int),
                c as int == code as int / pow2(k as nat) as int,
                forall|j: int| 0 <= j < k ==> !codes0.dom().contains(#[trigger] path.take(j)),
                stop ==> k < bit_length && nodes0[cur as int].val is None && child(
                    nodes0[cur as int],
                    path[k as int],
                ) is None,
            decreases bit_length - k + (if stop { 0int } else { 1 }),
        {
            let node = self.nodes[cur];
            if node.val.is_some() {
                proof {
                    let q = path.take(k as int);
                    assert(is_code_node(nodes0, paths0, cur as int, q));
                    assert(q.is_prefix_of(path)) by {
                        assert(q =~= path.subrange(0, q.len() as int));
                    }
                    assert(codes0.dom().contains(q));
                }
                return false;
            }
            proof {
                let q = path.take(k as int);
                if codes0.dom().contains(q) {
                    let i = choose|i: int| is_code_node(nodes0, paths0, i, q);
                    assert(i == cur);
                }
                assert(c & 1 == c % 2) by (bit_vector);
                assert(c >> 1 == c / 2) by (bit_vector);
                lemma_pow2_unfold((k + 1) as nat);
                lemma_pow2_pos(k as nat);
                lemma_div_denominator(code as int, pow2(k as nat) as int, 2);
            }
            let bit: u16 = c & 1;
            let next = if bit == 1 {
                node.right
            } else {
                node.left
            };
            match next {
                None => {
                    stop = true;
                },
                Some(idx) => {
                    proof {
                        let b = path[k as int];
                        assert(child(nodes0[cur as int], b) == Some(idx));
                        assert(paths0[idx as int] =~= paths0[idx as int].drop_last().push(
                            paths0[idx as int].last(),
                        ));
                        assert(paths0[idx as int] =~= path.take(k + 1));
                    }
                    cur = idx;
                    c = c >> 1;
                    k = k + 1;
                },
            }
        }
        if !stop {
            // The whole way is there already: the code is taken, or longer
            // codes run through its end.
            proof {
                assert(path.take(bit_length as int) =~= path);
                assert(cur != 0);
                let t = lemma_symbol_below(nodes0, paths0, parents0, cur as int);
                assert(is_code_node(nodes0, paths0, t, paths0[t]));
                assert(codes0.dom().contains(paths0[t]));
            }
            return false;
        }
        let ghost d = k as int;
        let ghost attach = cur as int;
        proof {
            lemma_nothing_beyond(nodes0, paths0, parents0, attach, path[d]);
            assert(path.take(d + 1) =~= path.take(d).push(path[d]));
            // No code of the tree clashes with the new one.
            assert(!conflicts(codes0, path)) by {
                assert forall|q: Seq<bool>| codes0.dom().contains(q) implies !(q.is_prefix_of(path)
                    || path.is_prefix_of(q)) by {
                    let i = choose|i: int| is_code_node(nodes0, paths0, i, q);
                    if q.is_prefix_of(path) {
                        if q.len() <= d {
                            assert(q =~= path.take(q.len() as int));
                        } else {
                            assert(path.take(d + 1) =~= q.subrange(0, d + 1));
                            assert(path.take(d + 1).is_prefix_of(paths0[i]));
                        }
                    } else if path.is_prefix_of(q) {
                        assert(path.take(d + 1) =~= q.subrange(0, d + 1));
                        assert(path.take(d + 1).is_prefix_of(paths0[i]));
                    }
                }
            }
        }
        // Grow the rest of the way.
        while k < bit_length
            invariant
                structure(self.nodes@, self.paths@, self.parents@),
                symbols_on_leaves(self.nodes@),
                no_dead_ends(self.nodes@, cur as int),
                path == code_path(code, bit_length as nat),
                1 <= bit_length <= 16,
                0 <= d <= k <= bit_length,
                d < bit_length,
                nodes0.len() <= self.nodes@.len(),
                nodes0.len() == paths0.len(),
                self.nodes@.len() == nodes0.len() + (k - d),
                0 <= cur < self.nodes@.len(),
                k == d ==> cur == attach,
                k > d ==> cur == self.nodes@.len() - 1 && self.nodes@[cur as int].left is None
                    && self.nodes@[cur as int].right is None,
                self.paths@[cur as int] == path.take(k as int),
                self.nodes@[cur as int].val is None,
                k < bit_length ==> child(self.nodes@[cur as int], path[k as int]) is None,
                c as int == code as int / pow2(k as nat) as int,
                forall|i: int|
                    0 <= i < nodes0.len() ==> (#[trigger] self.nodes@[i]).val == nodes0[i].val
                        && self.paths@[i] == paths0[i],
                forall|i: int|
                    nodes0.len() <= i < self.nodes@.len() ==> (#[trigger] self.nodes@[i]).val is None,
            decreases bit_length - k,
        {
            let ghost nodes1 = self.nodes@;
            let ghost paths1 = self.paths@;
            let ghost parents1 = self.parents@;
            let ghost b = path[k as int];
            proof {
                assert(c & 1 == c % 2) by (bit_vector);
                assert(c >> 1 == c / 2) by (bit_vector);
                lemma_pow2_unfold((k + 1) as nat);
                lemma_pow2_pos(k as nat);
                lemma_div_denominator(code as int, pow2(k as nat) as int, 2);
                lemma_nothing_beyond(nodes1, paths1, parents1, cur as int, b);
                assert(path.take(k + 1) =~= path.take(k as int).push(b));
            }
            let bit: u16 = c & 1;
            let idx = self.new_node(Ghost(path.take(k + 1)), Ghost(cur as int));
            let node = self.nodes[cur];
            if bit == 1 {
                self.nodes.set(cur, HuffmanNode { left: node.left, right: Some(idx), val: node.val });
            } else {
                self.nodes.set(cur, HuffmanNode { left: Some(idx), right: node.right, val: node.val });
            }
            proof {
                let nodes2 = self.nodes@;
                let paths2 = self.paths@;
                let parents2 = self.parents@;
                let w = path.take(k + 1);
                assert(w.drop_last() =~= path.take(k as int));
                assert(w.last() == b);
                assert(child(nodes2[cur as int], b) == Some(idx));
                assert(child(nodes2[cur as int], !b) == child(nodes1[cur as int], !b));
                assert forall|j: int| 1 <= j < nodes2.len() implies {
                    &&& 0 <= #[trigger] parents2[j] < j
                    &&& paths2[j].len() >= 1
                    &&& paths2[j].drop_last() == paths2[parents2[j]]
                    &&& child(nodes2[parents2[j]], paths2[j].last()) == Some(j as usize)
                } by {
                    if j < nodes1.len() {
                        assert(parents1[j] == parents2[j]);
                        let m = parents1[j];
                        if m == cur {
                            assert(child(nodes1[m], paths1[j].last()) == Some(j as usize));
                            assert(paths1[j].last() != b);
                        } else {
                            assert(nodes2[m] == nodes1[m]);
                        }
                    }
                }
                assert forall|i: int, bb: bool|
                    0 <= i < nodes2.len() && (#[trigger] child(nodes2[i], bb)) is Some implies {
                    let cc = child(nodes2[i], bb).unwrap() as int;
                    &&& 0 < cc < nodes2.len()
                    &&& parents2[cc] == i
                    &&& paths2[cc].last() == bb
                } by {
                    if i == cur {
                        if bb == b {
                        } else {
                            assert(child(nodes1[i], bb) is Some);
                        }
                    } else if i < nodes1.len() {
                        assert(nodes2[i] == nodes1[i]);
                        assert(child(nodes1[i], bb) is Some);
                    }
                }
                assert forall|i: int, j: int|
                    0 <= i < nodes2.len() && 0 <= j < nodes2.len() && #[trigger] paths2[i]
                        == #[trigger] paths2[j] implies i == j by {
                    if i < nodes1.len() && j < nodes1.len() {
                        assert(paths1[i] == paths1[j]);
                    } else if i < nodes1.len() {
                        assert(w.is_prefix_of(paths1[i])) by {
                            assert(w =~= paths1[i].subrange(0, w.len() as int));
                        }
                    } else if j < nodes1.len() {
                        assert(w.is_prefix_of(paths1[j])) by {
                            assert(w =~= paths1[j].subrange(0, w.len() as int));
                        }
                    }
                }
                assert forall|i: int| 0 <= i < nodes2.len() implies (#[trigger] paths2[i]).len()
                    <= 16 by {
                    if i < nodes1.len() {
                        assert(paths1[i].len() <= 16);
                    }
                }
                assert(structure(nodes2, paths2, parents2));
                assert forall|i: int|
                    0 <= i < nodes2.len() && (#[trigger] nodes2[i]).val is Some implies nodes2[i].left is None
                    && nodes2[i].right is None by {
                    if i < nodes1.len() && i != cur {
                        assert(nodes2[i] == nodes1[i]);
                    }
                }
                assert forall|i: int|
                    1 <= i < nodes2.len() && i != idx && (#[trigger] nodes2[i]).val is None implies nodes2[i].left is Some
                    || nodes2[i].right is Some by {
                    if i < nodes1.len() && i != cur {
                        assert(nodes2[i] == nodes1[i]);
                    }
                }
                assert forall|i: int| 0 <= i < nodes0.len() implies (#[trigger] nodes2[i]).val
                    == nodes0[i].val && paths2[i] == paths0[i] by {
                    assert(nodes1[i].val == nodes0[i].val);
                    assert(paths1[i] == paths0[i]);
                }
                assert forall|i: int| nodes0.len() <= i < nodes2.len() implies (
                #[trigger] nodes2[i]).val is None by {
                    if i < nodes1.len() {
                        assert(nodes1[i].val is None);
                    }
                }
            }
            cur = idx;
            c = c >> 1;
            k = k + 1;
        }
        let ghost nodes1 = self.nodes@;
        let node = self.nodes[cur];
        self.nodes.set(cur, HuffmanNode { left: node.left, right: node.right, val: Some(val) });
        proof {
            let nodes2 = self.nodes@;
            let paths2 = self.paths@;
            let parents2 = self.parents@;
            assert(path.take(bit_length as int) =~= path);
            assert(paths2[cur as int] == path);
            assert forall|i: int, bb: bool| 0 <= i < nodes2.len() implies #[trigger] child(
                nodes2[i],
                bb,
            ) == child(nodes1[i], bb) by {}
            assert(structure(nodes2, paths2, parents2)) by {
                assert forall|j: int| 1 <= j < nodes2.len() implies {
                    &&& 0 <= #[trigger] parents2[j] < j
                    &&& paths2[j].len() >= 1
                    &&& paths2[j].drop_last() == paths2[parents2[j]]
                    &&& child(nodes2[parents2[j]], paths2[j].last()) == Some(j as usize)
                } by {
                    let m = parents2[j];
                    assert(child(nodes2[m], paths2[j].last()) == child(nodes1[m], paths2[j].last()));
                }
                assert forall|i: int, bb: bool|
                    0 <= i < nodes2.len() && (#[trigger] child(nodes2[i], bb)) is Some implies {
                    let cc = child(nodes2[i], bb).unwrap() as int;
                    &&& 0 < cc < nodes2.len()
                    &&& parents2[cc] == i
                    &&& paths2[cc].last() == bb
                } by {
                    assert(child(nodes1[i], bb) is Some);
                }
            }
            assert(symbols_on_leaves(nodes2)) by {
                assert forall|i: int|
                    0 <= i < nodes2.len() && (#[trigger] nodes2[i]).val is Some implies nodes2[i].left is None
                    && nodes2[i].right is None by {
                    if i != cur {
                        assert(nodes2[i] == nodes1[i]);
                    }
                }
            }
            assert(no_dead_ends(nodes2, -1)) by {
                assert forall|i: int|
                    1 <= i < nodes2.len() && (#[trigger] nodes2[i]).val is None implies nodes2[i].left is Some
                    || nodes2[i].right is Some by {
                    assert(i != cur);
                    assert(nodes2[i] == nodes1[i]);
                }
            }
            // The table has gained the new code and kept the others.
            let after = codes_of(nodes2, paths2);
            let wanted = codes0.insert(path, val);
            assert forall|q: Seq<bool>| after.dom().contains(q) implies wanted.dom().contains(
                q,
            ) by {
                let i = choose|i: int| is_code_node(nodes2, paths2, i, q);
                if i != cur {
                    assert(nodes2[i] == nodes1[i]);
                    assert(i < nodes0.len());
                    assert(is_code_node(nodes0, paths0, i, q));
                }
            }
            assert forall|q: Seq<bool>| #[trigger] wanted.dom().contains(q) implies after.dom().contains(
                q,
            ) && after[q] == wanted[q] by {
                if q == path {
                    assert(is_code_node(nodes2, paths2, cur as int, q));
                    let i = choose|i: int| is_code_node(nodes2, paths2, i, q);
                    assert(i == cur);
                } else {
                    let i0 = choose|i: int| is_code_node(nodes0, paths0, i, q);
                    assert(i0 != cur);
                    assert(nodes2[i0] == nodes1[i0]);
                    assert(is_code_node(nodes2, paths2, i0, q));
                    let i = choose|i: int| is_code_node(nodes2, paths2, i, q);
                    assert(i == i0);
                }
            }
            assert(after =~= wanted);
        }
        true
    }
}

} // verus!
