//! Bit streams over byte sequences, and the buffered reader that hands out
//! their bits a few at a time.

use vstd::arithmetic::div_mod::*;
use vstd::arithmetic::mul::*;
use vstd::arithmetic::power2::*;
use vstd::bits::*;
use vstd::prelude::*;

verus! {

/// Bit `k` of a byte, bit 0 being the least significant one.
pub open spec fn byte_bit(b: u8, k: int) -> bool {
    (b as int / pow2(k as nat) as int) % 2 == 1
}

/// The bits of `data` in the order in which a reader consumes them: byte by
/// byte, and within a byte from the least significant bit upwards, or from the
/// most significant bit downwards when `msb_first` is set.
pub open spec fn stream_bits(data: Seq<u8>, msb_first: bool) -> Seq<bool> {
    Seq::new(
        8 * data.len(),
        |i: int|
            byte_bit(
                data[i / 8],
                if msb_first {
                    7 - i % 8
                } else {
                    i % 8
                },
            ),
    )
}

/// Bit `i` of a stream as a number; every position outside the stream reads
/// as zero.
pub open spec fn bit_at(bits: Seq<bool>, i: int) -> nat {
    if 0 <= i < bits.len() && bits[i] {
        1
    } else {
        0
    }
}

/// The number formed by the `n` bits from position `pos` on, the first bit
/// being the least significant one.
pub open spec fn bits_value(bits: Seq<bool>, pos: int, n: nat) -> nat
    decreases n,
{
    if n == 0 {
        0
    } else {
        bit_at(bits, pos) + 2 * bits_value(bits, pos + 1, (n - 1) as nat)
    }
}

/// The number formed by the `n` bits from position `pos` on, the first bit
/// being the most significant one.
pub open spec fn bits_value_msb(bits: Seq<bool>, pos: int, n: nat) -> nat
    decreases n,
{
    if n == 0 {
        0
    } else {
        2 * bits_value_msb(bits, pos, (n - 1) as nat) + bit_at(bits, pos + n - 1)
    }
}

/// The `n` bits from position `pos` on, zero-padded past the end of the stream.
pub open spec fn bits_window(bits: Seq<bool>, pos: int, n: nat) -> Seq<bool> {
    Seq::new(n, |k: int| bit_at(bits, pos + k) == 1)
}

/// A byte with its eight bits in the opposite order.
pub open spec fn reversed_byte(b: u8) -> u8 {
    (((b & 1) << 7) | ((b & 2) << 5) | ((b & 4) << 3) | ((b & 8) << 1) | ((b & 16) >> 1) | ((b
        & 32) >> 3) | ((b & 64) >> 5) | ((b & 128) >> 7)) as u8
}

/// An `n`-bit number is below `2^n`.
pub proof fn lemma_bits_value_bound(bits: Seq<bool>, pos: int, n: nat)
    ensures
        bits_value(bits, pos, n) < pow2(n),
    decreases n,
{
    if n == 0 {
        lemma2_to64();
    } else {
        lemma_bits_value_bound(bits, pos + 1, (n - 1) as nat);
        lemma_pow2_unfold(n);
    }
}

/// A number of `n` bits, read from the most significant bit down, is below
/// two to the `n`.
pub proof fn lemma_bits_value_msb_bound(bits: Seq<bool>, pos: int, n: nat)
    ensures
        bits_value_msb(bits, pos, n) < pow2(n),
    decreases n,
{
    if n == 0 {
        lemma2_to64();
    } else {
        lemma_bits_value_msb_bound(bits, pos, (n - 1) as nat);
        lemma_pow2_unfold(n);
    }
}

/// The first `a` of `a + b` bits are the low part of their number, the other
/// `b` the high part.
pub proof fn lemma_bits_value_split(bits: Seq<bool>, pos: int, a: nat, b: nat)
    ensures
        bits_value(bits, pos, a + b) == bits_value(bits, pos, a) + pow2(a) * bits_value(
            bits,
            pos + a,
            b,
        ),
    decreases a,
{
    if a == 0 {
        lemma2_to64();
    } else {
        lemma_bits_value_split(bits, pos + 1, (a - 1) as nat, b);
        lemma_pow2_unfold(a);
        let hi = bits_value(bits, pos + a, b) as int;
        let p = pow2((a - 1) as nat) as int;
        assert(2 * (p * hi) == (2 * p) * hi) by {
            lemma_mul_is_associative(2, p, hi);
        }
    }
}

/// Past the end of the stream every number is zero.
pub proof fn lemma_bits_value_past_end(bits: Seq<bool>, pos: int, n: nat)
    requires
        pos >= bits.len(),
    ensures
        bits_value(bits, pos, n) == 0,
    decreases n,
{
    if n > 0 {
        lemma_bits_value_past_end(bits, pos + 1, (n - 1) as nat);
    }
}

/// Dividing an `a + b`-bit number by `2^a` leaves its high `b` bits, and the
/// remainder is its low `a` bits.
pub proof fn lemma_bits_value_div_mod(bits: Seq<bool>, pos: int, a: nat, b: nat)
    ensures
        bits_value(bits, pos, a + b) / pow2(a) == bits_value(bits, pos + a, b),
        bits_value(bits, pos, a + b) % pow2(a) == bits_value(bits, pos, a),
{
    lemma_bits_value_split(bits, pos, a, b);
    lemma_bits_value_bound(bits, pos, a);
    lemma_pow2_pos(a);
    let hi = bits_value(bits, pos + a, b) as int;
    let lo = bits_value(bits, pos, a) as int;
    lemma_mul_is_commutative(pow2(a) as int, hi);
    lemma_fundamental_div_mod_converse(
        bits_value(bits, pos, a + b) as int,
        pow2(a) as int,
        hi,
        lo,
    );
}

/// Bit `i` of the number formed by `n` bits is bit `pos + i` of the stream.
pub proof fn lemma_bits_value_bit(bits: Seq<bool>, pos: int, n: nat, i: nat)
    requires
        i < n,
    ensures
        (bits_value(bits, pos, n) / pow2(i)) % 2 == bit_at(bits, pos + i),
{
    lemma_bits_value_div_mod(bits, pos, i, (n - i) as nat);
    assert(i + (n - i) as nat == n);
}

/// The number formed by eight bits, written out.
proof fn lemma_bits_value_eight(bits: Seq<bool>, q: int)
    ensures
        bits_value(bits, q, 8) == bit_at(bits, q) + 2 * bit_at(bits, q + 1) + 4 * bit_at(
            bits,
            q + 2,
        ) + 8 * bit_at(bits, q + 3) + 16 * bit_at(bits, q + 4) + 32 * bit_at(bits, q + 5) + 64
            * bit_at(bits, q + 6) + 128 * bit_at(bits, q + 7),
{
    reveal_with_fuel(bits_value, 9);
}

/// Bit `k` of byte `p` of the data is bit `8 * p + k` of a stream that runs
/// from the least significant bit up, and bit `8 * p + 7 - k` of one that runs
/// the other way.
proof fn lemma_stream_bit(data: Seq<u8>, msb_first: bool, p: int, k: int)
    requires
        0 <= p < data.len(),
        0 <= k < 8,
    ensures
        bit_at(stream_bits(data, msb_first), 8 * p + k) == (data[p] as int / pow2(
            (if msb_first {
                7 - k
            } else {
                k
            }) as nat,
        ) as int) % 2,
{
    let i = 8 * p + k;
    assert(i / 8 == p && i % 8 == k);
    lemma_pow2_pos(
        (if msb_first {
            7 - k
        } else {
            k
        }) as nat,
    );
}

/// A byte is the sum of its bits, and so is the reversed byte, with the
/// weights in the opposite order.
proof fn lemma_byte_bits(b: u8)
    ensures
        b == (b % 2) + 2 * ((b / 2) % 2) + 4 * ((b / 4) % 2) + 8 * ((b / 8) % 2) + 16 * ((b / 16)
            % 2) + 32 * ((b / 32) % 2) + 64 * ((b / 64) % 2) + 128 * ((b / 128) % 2),
        reversed_byte(b) == ((b / 128) % 2) + 2 * ((b / 64) % 2) + 4 * ((b / 32) % 2) + 8 * ((b
            / 16) % 2) + 16 * ((b / 8) % 2) + 32 * ((b / 4) % 2) + 64 * ((b / 2) % 2) + 128 * (b
            % 2),
{
    assert(b == (b % 2) + 2 * ((b / 2) % 2) + 4 * ((b / 4) % 2) + 8 * ((b / 8) % 2) + 16 * ((b / 16)
        % 2) + 32 * ((b / 32) % 2) + 64 * ((b / 64) % 2) + 128 * ((b / 128) % 2)) by (bit_vector);
    let r = reversed_byte(b);
    assert(r == ((b / 128) % 2) + 2 * ((b / 64) % 2) + 4 * ((b / 32) % 2) + 8 * ((b / 16) % 2) + 16
        * ((b / 8) % 2) + 32 * ((b / 4) % 2) + 64 * ((b / 2) % 2) + 128 * (b % 2)) by (bit_vector)
        requires
            r == (((b & 1) << 7) | ((b & 2) << 5) | ((b & 4) << 3) | ((b & 8) << 1) | ((b & 16)
                >> 1) | ((b & 32) >> 3) | ((b & 64) >> 5) | ((b & 128) >> 7)) as u8,
    ;
}

/// Eight bits from a byte boundary on form that byte, or the byte reversed
/// where the stream runs from the most significant bit down.
pub proof fn lemma_bits_value_byte(data: Seq<u8>, msb_first: bool, p: int)
    requires
        0 <= p < data.len(),
    ensures
        bits_value(stream_bits(data, msb_first), 8 * p, 8) == if msb_first {
            reversed_byte(data[p])
        } else {
            data[p]
        },
{
    let bits = stream_bits(data, msb_first);
    lemma_bits_value_eight(bits, 8 * p);
    lemma_stream_bit(data, msb_first, p, 0);
    lemma_stream_bit(data, msb_first, p, 1);
    lemma_stream_bit(data, msb_first, p, 2);
    lemma_stream_bit(data, msb_first, p, 3);
    lemma_stream_bit(data, msb_first, p, 4);
    lemma_stream_bit(data, msb_first, p, 5);
    lemma_stream_bit(data, msb_first, p, 6);
    lemma_stream_bit(data, msb_first, p, 7);
    lemma_byte_bits(data[p]);
    lemma2_to64();
}

/// Reverses the order of the eight bits of a byte.
pub fn reverse_byte(b: u8) -> (r: u8)
    ensures
        r == reversed_byte(b),
{
    ((b & 1) << 7) | ((b & 2) << 5) | ((b & 4) << 3) | ((b & 8) << 1) | ((b & 16) >> 1) | ((b & 32)
        >> 3) | ((b & 64) >> 5) | ((b & 128) >> 7)
}

/// A reader that hands out the bits of a byte slice. It keeps up to 32
/// unconsumed bits in an accumulator, which it refills a byte at a time.
pub struct BitBuffer<'a> {
    data: &'a [u8],
    pos: usize,
    buffer: u32,
    num_bits: u32,
    msb_first: bool,
}

impl<'a> BitBuffer<'a> {
    /// The bytes that the reader runs over.
    pub closed spec fn data(&self) -> Seq<u8> {
        self.data@
    }

    /// Whether each byte is consumed from its most significant bit down.
    pub closed spec fn msb_first(&self) -> bool {
        self.msb_first
    }

    /// The whole stream in consumption order.
    pub open spec fn bits(&self) -> Seq<bool> {
        stream_bits(self.data(), self.msb_first())
    }

    /// The number of bits consumed so far.
    pub closed spec fn bit_pos(&self) -> int {
        8 * self.pos - self.num_bits
    }

    /// The accumulator holds exactly the bits between the read position and the
    /// next byte to load.
    pub closed spec fn wf(&self) -> bool {
        &&& self.pos <= self.data@.len()
        &&& self.num_bits <= 32
        &&& self.num_bits <= 8 * self.pos
        &&& self.buffer == bits_value(self.bits(), self.bit_pos(), self.num_bits as nat)
    }

    /// The number that reading `n` bits returns: the next `n` bits, the first
    /// of them least significant, or most significant in a stream that runs
    /// from the most significant bit down.
    pub open spec fn next_value(&self, n: nat) -> nat {
        if self.msb_first() {
            bits_value_msb(self.bits(), self.bit_pos(), n)
        } else {
            bits_value(self.bits(), self.bit_pos(), n)
        }
    }

    /// The read position after `n` more bits are consumed: it stops at the end
    /// of the input.
    pub open spec fn bit_pos_after(&self, n: nat) -> int {
        if self.bit_pos() + n <= 8 * self.data().len() {
            self.bit_pos() + n
        } else {
            8 * self.data().len() as int
        }
    }

    /// The read position lies within the stream.
    pub proof fn lemma_bit_pos_range(&self)
        requires
            self.wf(),
        ensures
            0 <= self.bit_pos() <= self.bits().len(),
            self.bits().len() == 8 * self.data().len(),
    {
    }

    /// Reading `a` bits and then `b` bits leaves the reader where reading
    /// `a + b` bits at once leaves it: `a + b` bits further, as long as the
    /// input holds as many. And the two numbers read are the low `a` bits and
    /// the bits above them of the number of `a + b` bits, in a stream that
    /// hands out the least significant bit first.
    pub proof fn lemma_reads_add_up(&self, then: &BitBuffer, a: nat, b: nat)
        requires
            self.wf(),
            then.data() == self.data(),
            then.msb_first() == self.msb_first(),
            then.bit_pos() == self.bit_pos_after(a),
        ensures
            then.bit_pos_after(b) == self.bit_pos_after(a + b),
            self.bit_pos() + a + b <= 8 * self.data().len() ==> then.bit_pos_after(b)
                == self.bit_pos() + a + b,
            !self.msb_first() && self.bit_pos() + a <= 8 * self.data().len() ==> self.next_value(
                a + b,
            ) == self.next_value(a) + pow2(a) * then.next_value(b),
    {
        lemma_bits_value_split(self.bits(), self.bit_pos(), a, b);
    }

    /// A reader at the start of `data` that consumes each byte from its least
    /// significant bit upwards.
    pub fn new(data: &'a [u8]) -> (r: BitBuffer<'a>)
        ensures
            r.wf(),
            r.data() == data@,
            !r.msb_first(),
            r.bit_pos() == 0,
    {
        BitBuffer { data, pos: 0, buffer: 0, num_bits: 0, msb_first: false }
    }

    /// A reader at the start of `data` that consumes each byte from its most
    /// significant bit downwards.
    pub fn new_msb_first(data: &'a [u8]) -> (r: BitBuffer<'a>)
        ensures
            r.wf(),
            r.data() == data@,
            r.msb_first(),
            r.bit_pos() == 0,
    {
        BitBuffer { data, pos: 0, buffer: 0, num_bits: 0, msb_first: true }
    }

    /// Loads bytes into the accumulator until it holds at least 24 bits or the
    /// input is used up. What remains to be read is unchanged.
    pub fn fill(&mut self)
        requires
            old(self).wf(),
        ensures
            final(self).wf(),
            final(self).data() == old(self).data(),
            final(self).msb_first() == old(self).msb_first(),
            final(self).bit_pos() == old(self).bit_pos(),
            final(self).buffered() >= 24 || final(self).buffered() == 8 * old(self).data().len()
                - old(self).bit_pos(),
    {
        while self.num_bits < 24 && self.pos < self.data.len()
            invariant
                self.wf(),
                self.data() == old(self).data(),
                self.msb_first() == old(self).msb_first(),
                self.bit_pos() == old(self).bit_pos(),
            decreases self.data.len() - self.pos,
        {
            let raw: u8 = self.data[self.pos];
            let byte: u8 = if self.msb_first {
                reverse_byte(raw)
            } else {
                raw
            };
            let nb: u32 = self.num_bits;
            let acc: u32 = self.buffer;
            proof {
                let bits = self.bits();
                let bp = self.bit_pos();
                lemma_bits_value_byte(self.data(), self.msb_first(), self.pos as int);
                lemma_bits_value_split(bits, bp, nb as nat, 8);
                lemma_bits_value_bound(bits, bp, nb as nat);
                lemma_bits_value_bound(bits, bp, (nb + 8) as nat);
                lemma2_to64();
                lemma_u32_shl_is_mul(1u32, nb);
                lemma_pow2_adds(nb as nat, 8);
                assert(byte * pow2(nb as nat) <= pow2((nb + 8) as nat)) by (nonlinear_arith)
                    requires
                        byte < 256,
                        pow2((nb + 8) as nat) == pow2(nb as nat) * 256,
                ;
                if nb + 8 < 32 {
                    lemma_pow2_strictly_increases((nb + 8) as nat, 32);
                }
                lemma_u32_shl_is_mul(byte as u32, nb);
                assert(acc | ((byte as u32) << nb) == acc + ((byte as u32) << nb)) by (bit_vector)
                    requires
                        acc < (1u32 << nb),
                        nb < 24,
                        byte < 256,
                ;
                lemma_mul_is_commutative(byte as int, pow2(nb as nat) as int);
            }
            self.buffer = acc | ((byte as u32) << nb);
            self.num_bits = nb + 8;
            self.pos = self.pos + 1;
        }
    }

    /// The number of bits held in the accumulator.
    pub closed spec fn buffered(&self) -> int {
        self.num_bits as int
    }

    /// Whether every bit of the input has been consumed.
    pub fn is_exhausted(&self) -> (r: bool)
        requires
            self.wf(),
        ensures
            r == (self.bit_pos() >= 8 * self.data().len()),
    {
        self.num_bits == 0 && self.pos >= self.data.len()
    }

    /// Whether at least `n` bits are left to read.
    pub fn has_bits(&self, n: u32) -> (r: bool)
        requires
            self.wf(),
        ensures
            r == (self.bit_pos() + n <= 8 * self.data().len()),
    {
        let bytes_left: usize = self.data.len() - self.pos;
        if bytes_left >= 0x2000_0000 {
            true
        } else {
            (bytes_left as u64) * 8 + self.num_bits as u64 >= n as u64
        }
    }

    /// The next `n` bits as a number, first bit least significant, without
    /// consuming them. Past the end of the input the bits read as zero.
    pub fn peek(&mut self, n: u32) -> (r: u32)
        requires
            old(self).wf(),
            n <= 24,
        ensures
            final(self).wf(),
            final(self).data() == old(self).data(),
            final(self).msb_first() == old(self).msb_first(),
            final(self).bit_pos() == old(self).bit_pos(),
            r == bits_value(old(self).bits(), old(self).bit_pos(), n as nat),
    {
        self.fill();
        let ghost bits = self.bits();
        let ghost bp = self.bit_pos();
        if self.num_bits >= n {
            proof {
                lemma_bits_value_div_mod(bits, bp, n as nat, (self.num_bits - n) as nat);
                lemma2_to64();
                lemma_u32_shl_is_mul(1u32, n);
                lemma_pow2_strictly_increases(n as nat, 32);
                lemma_u32_low_bits_mask_is_mod(self.buffer, n as nat);
                assert(n as nat + (self.num_bits - n) as nat == self.num_bits as nat);
            }
            self.buffer & ((1u32 << n) - 1)
        } else {
            proof {
                let k = self.num_bits as nat;
                lemma_bits_value_split(bits, bp, k, (n - k) as nat);
                lemma_bits_value_past_end(bits, bp + k, (n - k) as nat);
                assert(k + (n - k) as nat == n as nat);
            }
            self.buffer
        }
    }

    /// Moves the read position `n` bits on, or to the end of the input where
    /// fewer than `n` bits remain.
    pub fn consume(&mut self, n: u32)
        requires
            old(self).wf(),
            n <= 24,
        ensures
            final(self).wf(),
            final(self).data() == old(self).data(),
            final(self).msb_first() == old(self).msb_first(),
            final(self).bit_pos() == old(self).bit_pos_after(n as nat),
    {
        self.fill();
        let ghost bits = self.bits();
        let ghost bp = self.bit_pos();
        if self.num_bits >= n {
            proof {
                lemma_bits_value_div_mod(bits, bp, n as nat, (self.num_bits - n) as nat);
                lemma_u32_shr_is_div(self.buffer, n);
                assert(n as nat + (self.num_bits - n) as nat == self.num_bits as nat);
            }
            self.buffer = self.buffer >> n;
            self.num_bits = self.num_bits - n;
        } else {
            self.buffer = 0;
            self.num_bits = 0;
        }
    }

    /// Reads `n` bits and returns them as a number; see [`Self::next_value`]
    /// for the order. Bits past the end of the input read as zero, and the
    /// read position stops at the end.
    pub fn get_n_bits(&mut self, n: u32) -> (r: u16)
        requires
            old(self).wf(),
            n <= 16,
        ensures
            final(self).wf(),
            final(self).data() == old(self).data(),
            final(self).msb_first() == old(self).msb_first(),
            final(self).bit_pos() == old(self).bit_pos_after(n as nat),
            r == old(self).next_value(n as nat),
    {
        let raw: u32 = self.peek(n);
        let ghost bits = self.bits();
        let ghost bp = self.bit_pos();
        proof {
            lemma_bits_value_bound(bits, bp, n as nat);
            lemma2_to64();
            if n < 16 {
                lemma_pow2_strictly_increases(n as nat, 16);
            }
        }
        let mut value: u32 = raw;
        if self.msb_first {
            value = 0;
            let mut i: u32 = 0;
            while i < n
                invariant
                    i <= n <= 16,
                    raw == bits_value(bits, bp, n as nat),
                    value == bits_value_msb(bits, bp, i as nat),
                    value < pow2(i as nat),
                decreases n - i,
            {
                proof {
                    lemma_bits_value_bit(bits, bp, n as nat, i as nat);
                    lemma_u32_shr_is_div(raw, i);
                    let t = raw >> i;
                    assert(t & 1 == t % 2) by (bit_vector);
                    lemma_pow2_unfold((i + 1) as nat);
                    lemma2_to64();
                    lemma_pow2_strictly_increases(i as nat, 16);
                }
                value = value * 2 + ((raw >> i) & 1);
                i = i + 1;
            }
            proof {
                if n < 16 {
                    lemma_pow2_strictly_increases(n as nat, 16);
                }
            }
        }
        self.consume(n);
        value as u16
    }

    /// Drops what is left of a partly consumed byte, so that the next bit read
    /// is the first bit of a byte.
    pub fn reset(&mut self)
        requires
            old(self).wf(),
        ensures
            final(self).wf(),
            final(self).data() == old(self).data(),
            final(self).msb_first() == old(self).msb_first(),
            final(self).bit_pos() % 8 == 0,
            old(self).bit_pos() <= final(self).bit_pos() < old(self).bit_pos() + 8,
    {
        let whole: u32 = self.num_bits / 8;
        self.pos = self.pos - whole as usize;
        self.buffer = 0;
        self.num_bits = 0;
    }
}

} // verus!
