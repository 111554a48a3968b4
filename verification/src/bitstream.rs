//! MSB-first bit writer plus the LCEVC multibyte and byte-alignment helpers.
//!
//! All syntax elements are written most significant bit first.
use vstd::prelude::*;

verus! {

/// Bit `i` of a byte string, counting from the most significant bit of the first byte.
pub open spec fn bit_at(bytes: Seq<u8>, i: int) -> bool {
    (bytes[i / 8] >> ((7 - i % 8) as u8)) & 1 == 1
}

/// All bits of a byte string.
pub open spec fn bytes_bits(bytes: Seq<u8>) -> Seq<bool> {
    Seq::new(8 * bytes.len(), |i: int| bit_at(bytes, i))
}

/// Two to the power `n`.
pub open spec fn two_pow(n: nat) -> nat
    decreases n,
{
    if n == 0 {
        1
    } else {
        2 * two_pow((n - 1) as nat)
    }
}

/// The low `n` bits of `v`, most significant first.
pub open spec fn bits_of(v: nat, n: nat) -> Seq<bool>
    decreases n,
{
    if n == 0 {
        Seq::empty()
    } else {
        bits_of(v / 2, (n - 1) as nat).push(v % 2 == 1)
    }
}

/// The number that a bit string denotes, most significant bit first.
pub open spec fn bits_value(s: Seq<bool>) -> nat
    decreases s.len(),
{
    if s.len() == 0 {
        0
    } else {
        2 * bits_value(s.drop_last()) + (if s.last() {
            1nat
        } else {
            0nat
        })
    }
}

/// `n` zero bits.
pub open spec fn zero_bits(n: nat) -> Seq<bool> {
    Seq::new(n, |i: int| false)
}

/// The zero bits that bring `len` bits to a byte boundary.
pub open spec fn padding(len: nat) -> Seq<bool> {
    zero_bits(((8 - len % 8) % 8) as nat)
}

/// The bit string `s` stands in `bits` at position `pos`.
pub open spec fn has_at(bits: Seq<bool>, pos: int, s: Seq<bool>) -> bool {
    0 <= pos && pos + s.len() <= bits.len() && bits.subrange(pos, pos + s.len()) == s
}

/// A concatenation stands at a position exactly if its parts stand one after the other.
pub proof fn lemma_has_at_concat(bits: Seq<bool>, pos: int, a: Seq<bool>, b: Seq<bool>)
    ensures
        has_at(bits, pos, a + b) <==> has_at(bits, pos, a) && has_at(bits, pos + a.len(), b),
{
    if has_at(bits, pos, a + b) {
        assert(bits.subrange(pos, pos + a.len()) =~= (a + b).subrange(0, a.len() as int));
        assert((a + b).subrange(0, a.len() as int) =~= a);
        assert(bits.subrange(pos + a.len(), pos + a.len() + b.len()) =~= (a + b).subrange(
            a.len() as int,
            (a + b).len() as int,
        ));
        assert((a + b).subrange(a.len() as int, (a + b).len() as int) =~= b);
    }
    if has_at(bits, pos, a) && has_at(bits, pos + a.len(), b) {
        assert(bits.subrange(pos, pos + (a + b).len()) =~= bits.subrange(pos, pos + a.len())
            + bits.subrange(pos + a.len(), pos + a.len() + b.len()));
    }
}

pub proof fn lemma_two_pow_pos(n: nat)
    ensures
        two_pow(n) >= 1,
    decreases n,
{
    if n > 0 {
        lemma_two_pow_pos((n - 1) as nat);
    }
}

/// Small powers of two.
pub proof fn lemma_two_pow_values()
    ensures
        two_pow(0) == 1,
        two_pow(1) == 2,
        two_pow(2) == 4,
        two_pow(3) == 8,
        two_pow(4) == 16,
        two_pow(5) == 32,
        two_pow(6) == 64,
        two_pow(8) == 256,
        two_pow(14) == 16384,
        two_pow(15) == 32768,
        two_pow(16) == 65536,
        two_pow(31) == 0x8000_0000,
        two_pow(32) == 0x1_0000_0000,
{
    reveal_with_fuel(two_pow, 33);
}

pub proof fn lemma_two_pow_add(a: nat, b: nat)
    ensures
        two_pow(a + b) == two_pow(a) * two_pow(b),
    decreases a,
{
    if a > 0 {
        lemma_two_pow_add((a - 1) as nat, b);
        let p = two_pow((a - 1) as nat);
        let q = two_pow(b);
        assert(2 * (p * q) == (2 * p) * q) by (nonlinear_arith);
        assert((a + b - 1) as nat == (a - 1) as nat + b);
    } else {
        assert(1 * two_pow(b) == two_pow(b));
    }
}

pub proof fn lemma_two_pow_mono(a: nat, b: nat)
    requires
        a <= b,
    ensures
        two_pow(a) <= two_pow(b),
    decreases b,
{
    if a < b {
        lemma_two_pow_mono(a, (b - 1) as nat);
    }
}

pub proof fn lemma_bits_of_len(v: nat, n: nat)
    ensures
        bits_of(v, n).len() == n,
    decreases n,
{
    if n > 0 {
        lemma_bits_of_len(v / 2, (n - 1) as nat);
    }
}

/// Reading back the low `n` bits of a number gives the number modulo two to the `n`.
pub proof fn lemma_bits_value_of(v: nat, n: nat)
    ensures
        bits_value(bits_of(v, n)) == v % two_pow(n),
    decreases n,
{
    lemma_two_pow_pos(n);
    if n > 0 {
        let m = (n - 1) as nat;
        lemma_bits_value_of(v / 2, m);
        lemma_bits_of_len(v / 2, m);
        lemma_two_pow_pos(m);
        let p = two_pow(m);
        let h = v / 2;
        assert(bits_of(v, n).drop_last() =~= bits_of(h, m));
        vstd::arithmetic::div_mod::lemma_fundamental_div_mod(h as int, p as int);
        vstd::arithmetic::div_mod::lemma_mod_bound(h as int, p as int);
        let q = h / p;
        let r = h % p;
        assert(0 <= r < p);
        assert(v == q * (2 * p) + (2 * r + v % 2)) by (nonlinear_arith)
            requires
                h == p * q + r,
                v == 2 * h + v % 2,
        ;
        vstd::arithmetic::div_mod::lemma_fundamental_div_mod_converse(
            v as int,
            (2 * p) as int,
            q as int,
            (2 * r + v % 2) as int,
        );
    }
}

/// A number of `n` bits is read back as it was written.
pub proof fn law_bits_roundtrip(v: nat, n: nat)
    requires
        v < two_pow(n),
    ensures
        bits_value(bits_of(v, n)) == v,
        bits_of(v, n).len() == n,
{
    lemma_bits_value_of(v, n);
    lemma_bits_of_len(v, n);
    vstd::arithmetic::div_mod::lemma_small_mod(v, two_pow(n));
}

pub proof fn lemma_bits_value_bound(s: Seq<bool>)
    ensures
        bits_value(s) < two_pow(s.len()),
    decreases s.len(),
{
    if s.len() > 0 {
        lemma_bits_value_bound(s.drop_last());
    }
}

/// MSB-first bit writer.
pub struct BitWriter {
    pub bytes: Vec<u8>,
    bit_count: u64,
}

impl View for BitWriter {
    type V = Seq<bool>;

    /// The bits written so far.
    closed spec fn view(&self) -> Seq<bool> {
        Seq::new(self.bit_count as nat, |i: int| bit_at(self.bytes@, i))
    }
}

impl BitWriter {
    /// The bytes hold exactly the written bits; the rest of the last byte is zero.
    pub closed spec fn wf(&self) -> bool {
        &&& self.bytes@.len() == (self.bit_count + 7) / 8
        &&& forall|i: int|
            self.bit_count <= i < 8 * self.bytes@.len() ==> !#[trigger] bit_at(self.bytes@, i)
    }

    pub fn new() -> (w: Self)
        ensures
            w.wf(),
            w@ == Seq::<bool>::empty(),
    {
        let w = BitWriter { bytes: Vec::new(), bit_count: 0 };
        assert(w@ =~= Seq::<bool>::empty());
        w
    }

    /// Total number of bits written so far.
    pub fn bit_count(&self) -> (n: u32)
        requires
            self.wf(),
            self@.len() <= u32::MAX,
        ensures
            n == self@.len(),
    {
        self.bit_count as u32
    }

    /// Number of bytes that the bits written so far take up; the last one may be partial.
    pub fn byte_count(&self) -> (n: usize)
        requires
            self.wf(),
        ensures
            n == (self@.len() + 7) / 8,
    {
        self.bytes.len()
    }

    fn push_bit(&mut self, bit: bool)
        requires
            old(self).wf(),
            old(self)@.len() < u64::MAX,
        ensures
            final(self).wf(),
            final(self)@ == old(self)@.push(bit),
    {
        let ghost before = self.bytes@;
        let ghost n: int = self.bit_count as int;
        let b: u8 = if bit {
            1
        } else {
            0
        };
        if self.bit_count % 8 == 0 {
            self.bytes.push(b << 7);
            proof {
                assert forall|i: int| 0 <= i < 8 * self.bytes@.len() implies bit_at(self.bytes@, i)
                    == (if i < n {
                    bit_at(before, i)
                } else {
                    i == n && bit
                }) by {
                    if i >= n {
                        let k = (7 - i % 8) as u8;
                        assert(i / 8 == before.len());
                        assert(k < 8);
                        assert((((b << 7u8) >> k) & 1 == 1) == (k == 7 && b == 1)) by (bit_vector)
                            requires
                                k < 8,
                                b == 0 || b == 1,
                        ;
                    }
                }
            }
        } else {
            let byte_idx: usize = self.bytes.len() - 1;
            let shift: u8 = 7 - (self.bit_count % 8) as u8;
            let prev: u8 = self.bytes[byte_idx];
            self.bytes.set(byte_idx, prev | (b << shift));
            proof {
                assert(!bit_at(before, n));
                assert(n / 8 == byte_idx);
                assert forall|i: int| 0 <= i < 8 * self.bytes@.len() implies bit_at(self.bytes@, i)
                    == (if i == n {
                    bit
                } else {
                    bit_at(before, i)
                }) by {
                    if i / 8 == byte_idx {
                        let k = (7 - i % 8) as u8;
                        assert(k == shift ==> i == n);
                        assert((((prev | (b << shift)) >> k) & 1 == 1) == (((prev >> k) & 1 == 1)
                            || (k == shift && b == 1))) by (bit_vector)
                            requires
                                k < 8,
                                shift < 8,
                                b == 0 || b == 1,
                        ;
                    }
                }
            }
        }
        self.bit_count = self.bit_count + 1;
        assert(self@ =~= old(self)@.push(bit));
    }

    /// Write `n` bits of `value` (MSB first). Only the low `n` bits are used.
    pub fn write_bits(&mut self, value: u64, n: u32)
        requires
            old(self).wf(),
            n <= 64,
            old(self)@.len() + n <= u64::MAX,
        ensures
            final(self).wf(),
            final(self)@ == old(self)@ + bits_of(value as nat, n as nat),
            final(self)@.len() == old(self)@.len() + n,
    {
        let mut i: u32 = n;
        assert(self@ =~= old(self)@ + bits_of(0, 0));
        while i > 0
            invariant
                i <= n <= 64,
                self.wf(),
                old(self)@.len() + n <= u64::MAX,
                self@.len() == old(self)@.len() + (n - i),
                i < 64 ==> self@ == old(self)@ + bits_of((value >> i) as nat, (n - i) as nat),
                i == n ==> self@ == old(self)@,
            decreases i,
        {
            i = i - 1;
            let bit = (value >> i) & 1 == 1;
            self.push_bit(bit);
            proof {
                assert(((value >> i) & 1 == 1) == ((value >> i) % 2 == 1)) by (bit_vector);
                if i + 1 < 64 {
                    let j = (i + 1) as u32;
                    assert((value >> i) / 2 == value >> j) by (bit_vector)
                        requires
                            i < 63,
                            j == i + 1,
                    ;
                }
                if i + 1 == n {
                    assert(bits_of((value >> i) as nat / 2, 0) =~= Seq::empty());
                }
                assert(bits_of((value >> i) as nat, (n - i) as nat) == bits_of(
                    (value >> i) as nat / 2,
                    (n - i - 1) as nat,
                ).push(bit));
                assert(self@ =~= old(self)@ + bits_of((value >> i) as nat, (n - i) as nat));
            }
        }
        proof {
            assert(value >> 0u32 == value) by (bit_vector);
            if n == 0 {
                assert(self@ =~= old(self)@ + bits_of(value as nat, 0));
            }
        }
    }

    /// Write a single bit.
    pub fn write_bit(&mut self, bit: bool)
        requires
            old(self).wf(),
            old(self)@.len() < u64::MAX,
        ensures
            final(self).wf(),
            final(self)@ == old(self)@.push(bit),
    {
        self.push_bit(bit);
    }

    /// Write one byte (8 bits, MSB first).
    pub fn write_byte(&mut self, byte: u8)
        requires
            old(self).wf(),
            old(self)@.len() + 8 <= u64::MAX,
        ensures
            final(self).wf(),
            final(self)@ == old(self)@ + bits_of(byte as nat, 8),
            final(self)@.len() == old(self)@.len() + 8,
    {
        self.write_bits(byte as u64, 8);
    }

    /// Write a 16-bit big-endian value.
    pub fn write_u16(&mut self, value: u16)
        requires
            old(self).wf(),
            old(self)@.len() + 16 <= u64::MAX,
        ensures
            final(self).wf(),
            final(self)@ == old(self)@ + bits_of(value as nat, 16),
            final(self)@.len() == old(self)@.len() + 16,
    {
        let ghost start = self@;
        proof {
            lemma_bits_of_split(value as nat, 8, 8);
            lemma_bits_of_mod(value as nat, 8);
            lemma_two_pow_values();
            lemma_bits_of_len((value >> 8) as nat, 8);
            assert(value >> 8 == value / 256) by (bit_vector);
            assert(value & 0xFF == value % 256) by (bit_vector);
        }
        self.write_byte((value >> 8) as u8);
        self.write_byte((value & 0xFF) as u8);
        assert(self@ =~= start + (bits_of((value / 256) as nat, 8) + bits_of(
            (value % 256) as nat,
            8,
        )));
    }

    /// Byte-align: emit zero bits so that the stream ends on a byte boundary. If already
    /// aligned, nothing is written.
    pub fn byte_alignment(&mut self)
        requires
            old(self).wf(),
            old(self)@.len() + 8 <= u64::MAX,
        ensures
            final(self).wf(),
            final(self)@ == old(self)@ + padding(old(self)@.len()),
            final(self)@.len() % 8 == 0,
    {
        let k: u32 = ((8 - self.bit_count % 8) % 8) as u32;
        proof {
            lemma_bits_of_zero(k as nat);
        }
        self.write_bits(0, k);
    }

    /// Byte-align by padding with zero bits only.
    pub fn byte_align_zero(&mut self)
        requires
            old(self).wf(),
            old(self)@.len() + 8 <= u64::MAX,
        ensures
            final(self).wf(),
            final(self)@ == old(self)@ + padding(old(self)@.len()),
            final(self)@.len() % 8 == 0,
    {
        self.byte_alignment();
    }

    /// Whether the stream is currently byte-aligned.
    pub fn is_aligned(&self) -> (r: bool)
        requires
            self.wf(),
        ensures
            r == (self@.len() % 8 == 0),
    {
        self.bit_count % 8 == 0
    }

    /// Finalize and return the bytes, padding the final partial byte with zero bits.
    pub fn finish(self) -> (bytes: Vec<u8>)
        requires
            self.wf(),
            self@.len() + 8 <= u64::MAX,
        ensures
            bytes@ == pack(self@),
            bytes_bits(bytes@) == self@ + padding(self@.len()),
    {
        let mut w = self;
        w.byte_align_zero();
        assert(bytes_bits(w.bytes@) =~= w@);
        proof {
            lemma_pack(self@);
            lemma_bytes_bits_injective(w.bytes@, pack(self@));
        }
        w.bytes
    }
}

/// The bytes that a bit string fills, the last one padded with zero bits.
pub open spec fn pack(bits: Seq<bool>) -> Seq<u8> {
    let all = bits + padding(bits.len());
    Seq::new(all.len() / 8, |i: int| bits_value(all.subrange(8 * i, 8 * i + 8)) as u8)
}

proof fn lemma_bits_of_value(s: Seq<bool>)
    ensures
        bits_of(bits_value(s), s.len()) == s,
    decreases s.len(),
{
    if s.len() > 0 {
        lemma_bits_of_value(s.drop_last());
        assert(bits_of(bits_value(s), s.len()) =~= s);
    } else {
        assert(bits_of(bits_value(s), s.len()) =~= s);
    }
}

/// The packed bytes hold the bits and their padding.
pub proof fn lemma_pack(bits: Seq<bool>)
    ensures
        bytes_bits(pack(bits)) == bits + padding(bits.len()),
        pack(bits).len() == (bits.len() + 7) / 8,
{
    let all = bits + padding(bits.len());
    let p = pack(bits);
    assert(all.len() % 8 == 0);
    lemma_two_pow_values();
    assert forall|i: int| 0 <= i < all.len() implies #[trigger] bytes_bits(p)[i] == all[i] by {
        let j = i / 8;
        let k = i % 8;
        let part = all.subrange(8 * j, 8 * j + 8);
        lemma_bits_value_bound(part);
        lemma_bits_of_value(part);
        lemma_byte_bits(p[j]);
        lemma_bit_at(p, j, k);
        lemma_bit_at(seq![p[j]], 0, k);
        assert(part[k] == all[i]);
    }
    assert(bytes_bits(p) =~= all);
}

proof fn lemma_bits_of_zero(n: nat)
    ensures
        bits_of(0, n) == zero_bits(n),
    decreases n,
{
    if n > 0 {
        lemma_bits_of_zero((n - 1) as nat);
        assert(bits_of(0, n) =~= zero_bits(n));
    } else {
        assert(bits_of(0, n) =~= zero_bits(n));
    }
}

/// The low `m + n` bits are the low `m` bits of the quotient by two to the `n`, and then
/// the low `n` bits.
pub proof fn lemma_bits_of_split(v: nat, m: nat, n: nat)
    ensures
        bits_of(v, m + n) == bits_of(v / two_pow(n), m) + bits_of(v, n),
    decreases n,
{
    if n == 0 {
        assert(bits_of(v, m) =~= bits_of(v / 1, m) + bits_of(v, 0));
    } else {
        let k = (n - 1) as nat;
        lemma_bits_of_split(v / 2, m, k);
        lemma_two_pow_pos(k);
        assert((v / 2) / two_pow(k) == v / two_pow(n)) by {
            vstd::arithmetic::div_mod::lemma_div_denominator(v as int, 2, two_pow(k) as int);
        }
        assert((m + n - 1) as nat == m + k);
        assert(bits_of(v, m + n) =~= bits_of(v / two_pow(n), m) + bits_of(v, n));
    }
}

/// The low `n` bits depend on the number modulo two to the `n` only.
pub proof fn lemma_bits_of_mod(v: nat, n: nat)
    ensures
        bits_of(v % two_pow(n), n) == bits_of(v, n),
    decreases n,
{
    if n > 0 {
        let k = (n - 1) as nat;
        let p = two_pow(k);
        lemma_two_pow_pos(k);
        lemma_bits_of_mod(v / 2, k);
        vstd::arithmetic::div_mod::lemma_mod_breakdown(v as int, 2, p as int);
        // v % (2 * p) == 2 * ((v / 2) % p) + v % 2
        let w = v % (2 * p);
        assert(w / 2 == (v / 2) % p);
        assert(w % 2 == v % 2);
    }
}

/// The bits of two byte strings one after the other.
pub proof fn lemma_bytes_bits_add(a: Seq<u8>, b: Seq<u8>)
    ensures
        bytes_bits(a + b) == bytes_bits(a) + bytes_bits(b),
{
    assert forall|i: int| 0 <= i < 8 * (a.len() + b.len()) implies bytes_bits(a + b)[i] == (
    bytes_bits(a) + bytes_bits(b))[i] by {
        if i >= 8 * a.len() {
            let j = i - 8 * a.len();
            assert(i / 8 == a.len() + j / 8);
            assert(i % 8 == j % 8);
        }
    }
    assert(bytes_bits(a + b) =~= bytes_bits(a) + bytes_bits(b));
}

proof fn lemma_byte_bit(b: u8, v: nat, k: nat)
    requires
        k <= 8,
        v == b >> ((8 - k) as u8),
    ensures
        bits_of(v, k) == bytes_bits(seq![b]).subrange(0, k as int),
    decreases k,
{
    if k == 0 {
        assert(bits_of(v, 0) =~= bytes_bits(seq![b]).subrange(0, 0));
    } else {
        let s = (8 - k) as u8;
        let t = (9 - k) as u8;
        if k > 1 {
            assert((b >> s) / 2 == b >> t) by (bit_vector)
                requires
                    s < 7,
                    t == s + 1,
            ;
        } else {
            assert(b >> 7 < 2) by (bit_vector);
            assert(b >> 8 == 0) by (bit_vector);
            assert((b >> s) / 2 == b >> t);
        }
        lemma_byte_bit(b, v / 2, (k - 1) as nat);
        assert(((b >> s) & 1 == 1) == ((b >> s) % 2 == 1)) by (bit_vector);
        assert(bits_of(v, k) =~= bytes_bits(seq![b]).subrange(0, k as int));
    }
}

/// The bits of one byte.
pub proof fn lemma_byte_bits(b: u8)
    ensures
        bits_of(b as nat, 8) == bytes_bits(seq![b]),
{
    assert(b >> 0u8 == b) by (bit_vector);
    lemma_byte_bit(b, b as nat, 8);
    assert(bytes_bits(seq![b]).subrange(0, 8) =~= bytes_bits(seq![b]));
}

/// Appending a byte appends its eight bits.
pub proof fn lemma_bytes_bits_push(s: Seq<u8>, b: u8)
    ensures
        bytes_bits(s.push(b)) == bytes_bits(s) + bits_of(b as nat, 8),
{
    lemma_byte_bits(b);
    lemma_bytes_bits_add(s, seq![b]);
    assert(s.push(b) =~= s + seq![b]);
}

proof fn lemma_bit_at(s: Seq<u8>, j: int, k: int)
    requires
        0 <= j < s.len(),
        0 <= k < 8,
    ensures
        bytes_bits(s)[8 * j + k] == ((s[j] >> ((7 - k) as u8)) & 1 == 1),
{
    assert((8 * j + k) / 8 == j && (8 * j + k) % 8 == k);
    assert(bytes_bits(s)[8 * j + k] == bit_at(s, 8 * j + k));
}

/// Byte strings with the same bits are the same.
pub proof fn lemma_bytes_bits_injective(a: Seq<u8>, b: Seq<u8>)
    requires
        bytes_bits(a) == bytes_bits(b),
    ensures
        a == b,
{
    assert(8 * a.len() == bytes_bits(a).len() && 8 * b.len() == bytes_bits(b).len());
    assert forall|j: int| 0 <= j < a.len() implies a[j] == b[j] by {
        let x = a[j];
        let y = b[j];
        lemma_bit_at(a, j, 0);
        lemma_bit_at(b, j, 0);
        lemma_bit_at(a, j, 1);
        lemma_bit_at(b, j, 1);
        lemma_bit_at(a, j, 2);
        lemma_bit_at(b, j, 2);
        lemma_bit_at(a, j, 3);
        lemma_bit_at(b, j, 3);
        lemma_bit_at(a, j, 4);
        lemma_bit_at(b, j, 4);
        lemma_bit_at(a, j, 5);
        lemma_bit_at(b, j, 5);
        lemma_bit_at(a, j, 6);
        lemma_bit_at(b, j, 6);
        lemma_bit_at(a, j, 7);
        lemma_bit_at(b, j, 7);
        assert(((x >> 7u8) & 1 == 1) == ((y >> 7u8) & 1 == 1));
        assert(((x >> 6u8) & 1 == 1) == ((y >> 6u8) & 1 == 1));
        assert(((x >> 5u8) & 1 == 1) == ((y >> 5u8) & 1 == 1));
        assert(((x >> 4u8) & 1 == 1) == ((y >> 4u8) & 1 == 1));
        assert(((x >> 3u8) & 1 == 1) == ((y >> 3u8) & 1 == 1));
        assert(((x >> 2u8) & 1 == 1) == ((y >> 2u8) & 1 == 1));
        assert(((x >> 1u8) & 1 == 1) == ((y >> 1u8) & 1 == 1));
        assert(((x >> 0u8) & 1 == 1) == ((y >> 0u8) & 1 == 1));
        assert(x == y) by (bit_vector)
            requires
                ((x >> 7u8) & 1 == 1) == ((y >> 7u8) & 1 == 1),
                ((x >> 6u8) & 1 == 1) == ((y >> 6u8) & 1 == 1),
                ((x >> 5u8) & 1 == 1) == ((y >> 5u8) & 1 == 1),
                ((x >> 4u8) & 1 == 1) == ((y >> 4u8) & 1 == 1),
                ((x >> 3u8) & 1 == 1) == ((y >> 3u8) & 1 == 1),
                ((x >> 2u8) & 1 == 1) == ((y >> 2u8) & 1 == 1),
                ((x >> 1u8) & 1 == 1) == ((y >> 1u8) & 1 == 1),
                ((x >> 0u8) & 1 == 1) == ((y >> 0u8) & 1 == 1),
        ;
    }
    assert(a =~= b);
}

/// The 7-bit groups of `v`, most significant first. Every group carries the continuation
/// flag 0x80, except the last one where `last` is set.
pub open spec fn groups7(v: nat, last: bool) -> Seq<u8>
    decreases v,
{
    let low = (v % 128 + (if last {
        0nat
    } else {
        128nat
    })) as u8;
    if v < 128 {
        seq![low]
    } else {
        groups7(v / 128, false).push(low)
    }
}

/// The multibyte coding of `v`: 7-bit groups, most significant first, with the continuation
/// flag in bit 7 of every group but the last.
pub open spec fn multibyte(v: nat) -> Seq<u8> {
    groups7(v, true)
}

/// What a reader of 7-bit groups finds in `s` from position `pos` on, with `acc` read so far
/// and numbers taken modulo `m`: the value and the position after it, or nothing where `s`
/// ends too early.
pub open spec fn groups7_at(s: Seq<u8>, pos: int, acc: int, m: int) -> Option<(int, int)>
    decreases s.len() - pos,
{
    if pos < 0 || pos >= s.len() {
        None
    } else {
        let next = (acc * 128 + s[pos] as int % 128) % m;
        if s[pos] < 128 {
            Some((next, pos + 1))
        } else {
            groups7_at(s, pos + 1, next, m)
        }
    }
}

pub proof fn lemma_groups7_len(v: nat, last: bool)
    ensures
        1 <= groups7(v, last).len() <= v + 1,
        v < 0x1_0000_0000 ==> groups7(v, last).len() <= 5,
        v < 0x1_0000_0000_0000_0000 ==> groups7(v, last).len() <= 10,
    decreases v,
{
    if v >= 128 {
        lemma_groups7_len(v / 128, false);
        if v < 0x1_0000_0000 {
            reveal_with_fuel(groups7, 6);
        }
        if v < 0x1_0000_0000_0000_0000 {
            reveal_with_fuel(groups7, 11);
        }
    }
}

/// Reading the groups of `v` without a last one leaves `v` in the accumulator.
proof fn lemma_groups7_prefix(s: Seq<u8>, pos: int, v: nat, m: int)
    requires
        v < m,
        0 <= pos,
        pos + groups7(v, false).len() <= s.len(),
        s.subrange(pos, pos + groups7(v, false).len()) == groups7(v, false),
    ensures
        groups7_at(s, pos, 0, m) == groups7_at(
            s,
            pos + groups7(v, false).len() as int,
            v as int,
            m,
        ),
    decreases v,
{
    let g = groups7(v, false);
    let n = g.len() as int;
    assert(s[pos + n - 1] == s.subrange(pos, pos + n)[n - 1]);
    if v >= 128 {
        let h = groups7(v / 128, false);
        assert(s.subrange(pos, pos + n - 1) =~= s.subrange(pos, pos + n).subrange(0, n - 1));
        assert(g.subrange(0, n - 1) =~= h);
        lemma_groups7_prefix(s, pos, v / 128, m);
        vstd::arithmetic::div_mod::lemma_small_mod(v, m as nat);
    } else {
        vstd::arithmetic::div_mod::lemma_small_mod(v, m as nat);
    }
}

/// A multibyte is read back as it was written, wherever it stands.
pub proof fn law_multibyte_roundtrip(s: Seq<u8>, pos: int, v: nat, m: int)
    requires
        v < m,
        0 <= pos,
        pos + multibyte(v).len() <= s.len(),
        s.subrange(pos, pos + multibyte(v).len()) == multibyte(v),
    ensures
        groups7_at(s, pos, 0, m) == Some((v as int, pos + multibyte(v).len())),
{
    let g = multibyte(v);
    let n = g.len() as int;
    vstd::arithmetic::div_mod::lemma_small_mod(v, m as nat);
    assert(s[pos + n - 1] == s.subrange(pos, pos + n)[n - 1]);
    if v >= 128 {
        let h = groups7(v / 128, false);
        assert(s.subrange(pos, pos + n - 1) =~= s.subrange(pos, pos + n).subrange(0, n - 1));
        assert(g.subrange(0, n - 1) =~= h);
        lemma_groups7_prefix(s, pos, v / 128, m);
    }
}

/// The multibyte coding of `value` as bytes.
pub fn multibyte_groups(value: u64) -> (out: Vec<u8>)
    ensures
        out@ == multibyte(value as nat),
        1 <= out@.len() <= 10,
{
    proof {
        lemma_groups7_len(value as nat, true);
    }
    let mut v: u64 = value;
    let mut low: Vec<u8> = Vec::new();
    let ghost mut last: bool = true;
    low.push((v % 128) as u8);
    // `low` holds the groups below `v`, least significant first.
    while v >= 128
        invariant
            low@.len() >= 1,
            low@[low@.len() - 1] == v % 128,
            forall|i: int| 0 <= i < low@.len() ==> low@[i] < 128,
            last == (low@.len() == 1),
            multibyte(value as nat) == groups7(v as nat, last) + tail_groups(low@),
        decreases v,
    {
        proof {
            let g: u8 = (v % 128 + (if last {
                0int
            } else {
                128int
            })) as u8;
            assert(low@.push(((v / 128) % 128) as u8).drop_last() =~= low@);
            lemma_tail_groups_step(low@, ((v / 128) % 128) as u8);
            assert(groups7(v as nat, last) + tail_groups(low@) =~= groups7((v / 128) as nat, false)
                + (seq![g] + tail_groups(low@)));
            last = false;
        }
        v = v / 128;
        low.push((v % 128) as u8);
    }
    let mut out: Vec<u8> = Vec::new();
    let n: usize = low.len();
    let mut i: usize = n;
    proof {
        assert(groups7(v as nat, last) =~= seq![
            (low@[n - 1] + (if last {
                0int
            } else {
                128int
            })) as u8,
        ]);
    }
    while i > 0
        invariant
            i <= n == low@.len(),
            forall|k: int| 0 <= k < low@.len() ==> low@[k] < 128,
            out@.len() == n - i,
            forall|k: int|
                0 <= k < out@.len() ==> out@[k] == (low@[n - 1 - k] + (if n - 1 - k == 0 {
                    0int
                } else {
                    128int
                })) as u8,
        decreases i,
    {
        i = i - 1;
        let b: u8 = if i > 0 {
            low[i] + 128
        } else {
            low[i]
        };
        out.push(b);
    }
    proof {
        assert(out@ =~= groups7(v as nat, last) + tail_groups(low@));
    }
    out
}

/// All groups of `low` but the top one, most significant first, as they are written.
spec fn tail_groups(low: Seq<u8>) -> Seq<u8> {
    Seq::new(
        (low.len() - 1) as nat,
        |k: int|
            (low[low.len() - 2 - k] + (if low.len() - 2 - k == 0 {
                0int
            } else {
                128int
            })) as u8,
    )
}

proof fn lemma_tail_groups_step(low: Seq<u8>, top: u8)
    requires
        low.len() >= 1,
        forall|i: int| 0 <= i < low.len() ==> low[i] < 128,
    ensures
        tail_groups(low.push(top)) == seq![
            (low[low.len() - 1] + (if low.len() == 1 {
                0int
            } else {
                128int
            })) as u8,
        ] + tail_groups(low),
{
    assert(tail_groups(low.push(top)) =~= seq![
        (low[low.len() - 1] + (if low.len() == 1 {
            0int
        } else {
            128int
        })) as u8,
    ] + tail_groups(low));
}

/// Encode a value as an LCEVC "multibyte" (7-bit groups, MSB group first, continuation flag
/// in bit 7 of every group except the last).
pub fn write_multibyte(w: &mut BitWriter, value: u64)
    requires
        old(w).wf(),
        old(w)@.len() + 80 <= u64::MAX,
    ensures
        final(w).wf(),
        final(w)@ == old(w)@ + bytes_bits(multibyte(value as nat)),
{
    let groups = multibyte_groups(value);
    let mut i: usize = 0;
    assert(w@ =~= old(w)@ + bytes_bits(groups@.subrange(0, 0)));
    while i < groups.len()
        invariant
            i <= groups@.len() <= 10,
            w.wf(),
            old(w)@.len() + 80 <= u64::MAX,
            w@.len() == old(w)@.len() + 8 * i,
            w@ == old(w)@ + bytes_bits(groups@.subrange(0, i as int)),
        decreases groups@.len() - i,
    {
        proof {
            lemma_bytes_bits_push(groups@.subrange(0, i as int), groups@[i as int]);
            lemma_bits_of_len(groups@[i as int] as nat, 8);
            assert(groups@.subrange(0, i + 1) =~= groups@.subrange(0, i as int).push(
                groups@[i as int],
            ));
        }
        let ghost before = w@;
        w.write_byte(groups[i]);
        assert(w@ =~= old(w)@ + bytes_bits(groups@.subrange(0, i + 1)));
        i += 1;
    }
    assert(groups@.subrange(0, i as int) =~= groups@);
}

} // verus!
