//! Huffman ("Prefix Coding") tables and coding.
//!
//! Stream header layout:
//!
//! ```text
//! min_code_length  u(5)
//! max_code_length  u(5)
//! if min == 31 && max == 31:  empty table (no further bits)
//! else if min == 0 && max == 0:  single symbol u(8)
//! else:
//!     length_bits = ceil(log2(max - min + 1))
//!     presence_bitmap u(1)
//!     if presence_bitmap == 1:
//!         for symbol in 0..256:
//!             present u(1)
//!             if present: (len - min) u(length_bits)
//!     else:
//!         symbol_count u(5)
//!         for i in 0..symbol_count:
//!             symbol u(8), (len - min) u(length_bits)
//! ```
//!
//! Codes are canonical: symbols sorted by (length asc, symbol desc), codes assigned
//! MSB-first starting from the longest length.
use crate::bitstream;
use crate::bitstream::BitWriter;
use crate::entropy::tree;
use vstd::prelude::*;

verus! {

pub const MAX_SYMBOLS: usize = 256;

/// The number of bits that `range` takes in binary: ceil(log2(range + 1)).
pub open spec fn length_bits(range: nat) -> nat
    decreases range,
{
    if range == 0 {
        0
    } else {
        1 + length_bits(range / 2)
    }
}

pub proof fn lemma_length_bits(range: nat)
    ensures
        range < bitstream::two_pow(length_bits(range)),
        length_bits(range) <= range,
        range > 0 ==> bitstream::two_pow((length_bits(range) - 1) as nat) <= range,
        range <= 255 ==> length_bits(range) <= 8,
    decreases range,
{
    if range > 0 {
        lemma_length_bits(range / 2);
        if range <= 255 {
            reveal_with_fuel(length_bits, 9);
        }
    }
}

/// ceil(log2(x + 1)), the bit width of a code-length offset in `0..=range`.
pub fn length_bits_for_range(range: u32) -> (bits: u32)
    requires
        range < u32::MAX,
    ensures
        bits == length_bits(range as nat),
{
    let mut x: u32 = range + 1;
    let mut bits: u32 = 0;
    proof {
        lemma_length_bits(range as nat);
    }
    while x > 1
        invariant
            1 <= x,
            bits + length_bits((x - 1) as nat) == length_bits(range as nat),
            length_bits(range as nat) <= range < u32::MAX,
        decreases x,
    {
        // (x + 1) / 2, written so that it cannot overflow
        x = x / 2 + x % 2;
        bits = bits + 1;
    }
    bits
}

/// Number of symbols below `n` whose code length is `l`.
pub open spec fn count_len(lengths: Seq<u8>, l: int, n: int) -> nat
    decreases n,
{
    if n <= 0 {
        0
    } else {
        count_len(lengths, l, n - 1) + (if lengths[n - 1] == l {
            1nat
        } else {
            0nat
        })
    }
}

/// Number of symbols below `n` that have a code.
pub open spec fn count_coded(lengths: Seq<u8>, n: int) -> nat
    decreases n,
{
    if n <= 0 {
        0
    } else {
        count_coded(lengths, n - 1) + (if lengths[n - 1] > 0 {
            1nat
        } else {
            0nat
        })
    }
}

/// The first code of length `l`: the codes of length `l + 1` follow each other from the
/// first one on, and what comes after them, without its last bit, is the first of length `l`.
pub open spec fn first_code(lengths: Seq<u8>, max_len: int, l: int) -> nat
    decreases max_len - l,
{
    if l >= max_len {
        0
    } else {
        (first_code(lengths, max_len, l + 1) + count_len(lengths, l + 1, 256)) / 2
    }
}

/// The canonical code of symbol `s`: symbols of one length are numbered upwards.
pub open spec fn code_of(lengths: Seq<u8>, max_len: int, s: int) -> nat {
    if lengths[s] == 0 {
        0
    } else {
        first_code(lengths, max_len, lengths[s] as int) + count_len(lengths, lengths[s] as int, s)
    }
}

/// The symbols below `n` of code length `l`, in descending order, with their codes.
pub open spec fn entries_of_len(lengths: Seq<u8>, max_len: int, l: int, n: int) -> Seq<
    (u8, u8, u32),
>
    decreases n,
{
    if n <= 0 {
        Seq::empty()
    } else if lengths[n - 1] == l {
        seq![(l as u8, (n - 1) as u8, code_of(lengths, max_len, n - 1) as u32)] + entries_of_len(
            lengths,
            max_len,
            l,
            n - 1,
        )
    } else {
        entries_of_len(lengths, max_len, l, n - 1)
    }
}

/// (length, symbol, code) of all symbols of code length 1 to `l`, sorted by
/// (length asc, symbol desc).
pub open spec fn entries_upto(lengths: Seq<u8>, max_len: int, l: int) -> Seq<(u8, u8, u32)>
    decreases l,
{
    if l <= 0 {
        Seq::empty()
    } else {
        entries_upto(lengths, max_len, l - 1) + entries_of_len(lengths, max_len, l, 256)
    }
}

pub proof fn lemma_count_len_bound(lengths: Seq<u8>, l: int, n: int)
    ensures
        count_len(lengths, l, n) <= if n <= 0 {
            0
        } else {
            n
        },
    decreases n,
{
    if n > 0 {
        lemma_count_len_bound(lengths, l, n - 1);
    }
}

pub proof fn lemma_first_code_bound(lengths: Seq<u8>, max_len: int, l: int)
    ensures
        first_code(lengths, max_len, l) <= 256,
    decreases max_len - l,
{
    if l < max_len {
        lemma_first_code_bound(lengths, max_len, l + 1);
        lemma_count_len_bound(lengths, l + 1, 256);
    }
}

/// Assign the canonical codes, from the longest length down.
fn canonical_codes(lengths: &[u8; MAX_SYMBOLS], max_len: u8) -> (code: [u32; MAX_SYMBOLS])
    requires
        forall|s: int| 0 <= s < 256 ==> lengths@[s] <= max_len,
    ensures
        forall|s: int|
            0 <= s < 256 ==> code@[s] == #[trigger] code_of(lengths@, max_len as int, s),
{
    let mut code: [u32; MAX_SYMBOLS] = [0u32; MAX_SYMBOLS];
    let mut curr: u32 = 0;
    let mut l: u8 = max_len;
    let ghost lens = lengths@;
    while l > 0
        invariant
            l <= max_len,
            lens == lengths@,
            forall|s: int| 0 <= s < 256 ==> lens[s] <= max_len,
            curr == first_code(lens, max_len as int, l as int),
            forall|s: int|
                0 <= s < 256 ==> #[trigger] code@[s] == (if lens[s] > l {
                    code_of(lens, max_len as int, s)
                } else {
                    0
                }),
        decreases l,
    {
        let mut s: usize = 0;
        proof {
            lemma_first_code_bound(lens, max_len as int, l as int);
        }
        while s < MAX_SYMBOLS
            invariant
                0 < l <= max_len,
                s <= 256,
                lens == lengths@,
                first_code(lens, max_len as int, l as int) <= 256,
                curr == first_code(lens, max_len as int, l as int) + count_len(
                    lens,
                    l as int,
                    s as int,
                ),
                forall|t: int|
                    0 <= t < 256 ==> #[trigger] code@[t] == (if lens[t] > l || (lens[t] == l && t
                        < s) {
                        code_of(lens, max_len as int, t)
                    } else {
                        0
                    }),
            decreases 256 - s,
        {
            proof {
                lemma_count_len_bound(lens, l as int, s as int);
            }
            if lengths[s] == l {
                code[s] = curr;
                curr = curr + 1;
            }
            s = s + 1;
        }
        curr = curr / 2;
        l = l - 1;
    }
    code
}

proof fn lemma_shift_in(v: u64, x: u64)
    requires
        x <= 1,
    ensures
        (v << 1) | x == (v * 2 + x) % 0x1_0000_0000_0000_0000,
{
    assert((v << 1u64) | x == (v * 2 + x) % 0x1_0000_0000_0000_0000) by (bit_vector)
        requires
            x <= 1,
    ;
}

proof fn lemma_mod_step(b: nat, x: nat)
    ensures
        ((b % 0x1_0000_0000_0000_0000) * 2 + x) % 0x1_0000_0000_0000_0000 == (2 * b + x)
            % 0x1_0000_0000_0000_0000,
{
    let m: int = 0x1_0000_0000_0000_0000;
    vstd::arithmetic::div_mod::lemma_fundamental_div_mod(b as int, m);
    vstd::arithmetic::div_mod::lemma_mod_multiples_vanish(
        2 * (b as int / m),
        2 * (b as int % m) + x,
        m,
    );
}

/// MSB-first bit reader.
pub struct BitReader<'a> {
    data: &'a [u8],
    pos: u128,
}

impl<'a> BitReader<'a> {
    /// The bits that the reader was made with.
    pub closed spec fn bits(&self) -> Seq<bool> {
        bitstream::bytes_bits(self.data@)
    }

    /// The number of bits read so far.
    pub closed spec fn pos(&self) -> int {
        self.pos as int
    }

    pub closed spec fn wf(&self) -> bool {
        self.pos <= 8 * self.data@.len()
    }

    pub fn new(data: &'a [u8]) -> (r: Self)
        ensures
            r.wf(),
            r.bits() == bitstream::bytes_bits(data@),
            r.pos() == 0,
    {
        BitReader { data, pos: 0 }
    }

    pub fn read_bit(&mut self) -> (b: Option<bool>)
        requires
            old(self).wf(),
        ensures
            final(self).wf(),
            final(self).bits() == old(self).bits(),
            0 <= old(self).pos() <= old(self).bits().len(),
            match b {
                Some(v) => old(self).pos() < old(self).bits().len() && v == old(self).bits()[old(
                    self,
                ).pos()] && final(self).pos() == old(self).pos() + 1,
                None => old(self).pos() == old(self).bits().len() && final(self).pos() == old(
                    self,
                ).pos(),
            },
    {
        if self.pos / 8 >= self.data.len() as u128 {
            return None;
        }
        let b: u8 = (self.data[(self.pos / 8) as usize] >> ((7 - (self.pos % 8)) as u8)) & 1;
        self.pos = self.pos + 1;
        Some(b == 1)
    }

    pub fn read_bits(&mut self, n: u32) -> (v: Option<u64>)
        requires
            old(self).wf(),
        ensures
            final(self).wf(),
            final(self).bits() == old(self).bits(),
            0 <= old(self).pos() <= old(self).bits().len(),
            final(self).pos() == read_n(old(self).bits(), old(self).pos(), n as nat).1,
            v is Some <==> read_n(old(self).bits(), old(self).pos(), n as nat).0 is Some,
            v is Some ==> v->0 == read_n(old(self).bits(), old(self).pos(), n as nat).0->0
                % 0x1_0000_0000_0000_0000,
    {
        let mut v: u64 = 0;
        let mut i: u32 = 0;
        let ghost start = self.pos();
        let ghost bits = self.bits();
        assert(bits.subrange(start, start) =~= Seq::empty());
        while i < n
            invariant
                i <= n,
                self.wf(),
                self.bits() == bits,
                bits == old(self).bits(),
                start == old(self).pos(),
                bits.len() == 8 * self.data@.len(),
                0 <= start,
                self.pos() == start + i,
                start + i <= bits.len(),
                v == bitstream::bits_value(bits.subrange(start, start + i))
                    % 0x1_0000_0000_0000_0000,
            decreases n - i,
        {
            match self.read_bit() {
                Some(b) => {
                    let x: u64 = if b {
                        1
                    } else {
                        0
                    };
                    proof {
                        lemma_shift_in(v, x);
                        let part = bits.subrange(start, start + i);
                        let more = bits.subrange(start, start + i + 1);
                        assert(more.drop_last() =~= part);
                        lemma_mod_step(bitstream::bits_value(part), x as nat);
                    }
                    v = (v << 1) | x;
                },
                None => {
                    return None;
                },
            }
            i = i + 1;
        }
        Some(v)
    }

    /// Number of bits not read yet.
    pub fn bits_remaining(&self) -> (n: usize)
        requires
            self.wf(),
            self.bits().len() - self.pos() <= usize::MAX,
        ensures
            n == self.bits().len() - self.pos(),
    {
        (self.data.len() as u128 * 8 - self.pos) as usize
    }
}

/// An `n`-bit number read at `pos`, and the position after the read. Reading past the end
/// gives nothing and uses up the rest.
pub open spec fn read_n(bits: Seq<bool>, pos: int, n: nat) -> (Option<nat>, int) {
    if pos + n <= bits.len() {
        (Some(bitstream::bits_value(bits.subrange(pos, pos + n))), pos + n)
    } else {
        (None, bits.len() as int)
    }
}

/// What a table says, for a decoder: the coded symbols with their codes, in matching order.
#[verifier::ext_equal]
pub struct TableModel {
    pub entries: Seq<(u8, u8, u32)>,
    pub min_len: u8,
    pub max_len: u8,
    pub single_symbol: Option<u8>,
    pub empty: bool,
}

/// The code lengths of the symbols from `i` on, from a presence bitmap at `pos`; `lens` holds
/// those before. Nothing where the data ends or a length is above `max`.
pub open spec fn read_bitmap(
    bits: Seq<bool>,
    pos: int,
    i: int,
    min: nat,
    max: nat,
    lens: Seq<u8>,
) -> (Option<Seq<u8>>, int)
    decreases 256 - i,
{
    if i >= 256 {
        (Some(lens), pos)
    } else {
        let (present, p1) = read_n(bits, pos, 1);
        match present {
            None => (None, p1),
            Some(flag) => if flag == 0 {
                read_bitmap(bits, p1, i + 1, min, max, lens)
            } else {
                let (extra, p2) = read_n(bits, p1, length_bits((max - min) as nat));
                match extra {
                    None => (None, p2),
                    Some(e) => if min + e > max {
                        (None, p2)
                    } else if min + e > 0 {
                        read_bitmap(bits, p2, i + 1, min, max, lens.update(i, (min + e) as u8))
                    } else {
                        read_bitmap(bits, p2, i + 1, min, max, lens)
                    },
                }
            },
        }
    }
}

/// The code lengths from a list of `count` symbols at `pos`, entered into `lens`. Nothing where
/// the data ends, a length is above `max`, or a length is zero.
pub open spec fn read_list(
    bits: Seq<bool>,
    pos: int,
    count: nat,
    min: nat,
    max: nat,
    lens: Seq<u8>,
) -> (Option<Seq<u8>>, int)
    decreases count,
{
    if count == 0 {
        (Some(lens), pos)
    } else {
        let (symbol, p1) = read_n(bits, pos, 8);
        match symbol {
            None => (None, p1),
            Some(s) => {
                let (extra, p2) = read_n(bits, p1, length_bits((max - min) as nat));
                match extra {
                    None => (None, p2),
                    Some(e) => if min + e > max || min + e == 0 {
                        (None, p2)
                    } else {
                        read_list(
                            bits,
                            p2,
                            (count - 1) as nat,
                            min,
                            max,
                            lens.update(s as int, (min + e) as u8),
                        )
                    },
                }
            },
        }
    }
}

/// No symbol has a code.
pub open spec fn no_lengths() -> Seq<u8> {
    Seq::new(256, |i: int| 0u8)
}

/// The code lengths that follow the two length limits in a header.
pub open spec fn read_lengths(bits: Seq<bool>, pos: int, min: nat, max: nat) -> (
    Option<Seq<u8>>,
    int,
) {
    let (presence, p1) = read_n(bits, pos, 1);
    match presence {
        None => (None, p1),
        Some(flag) => if flag == 1 {
            read_bitmap(bits, p1, 0, min, max, no_lengths())
        } else {
            let (count, p2) = read_n(bits, p1, 5);
            match count {
                None => (None, p2),
                Some(c) => if c == 0 {
                    (None, p2)
                } else {
                    read_list(bits, p2, c, min, max, no_lengths())
                },
            }
        },
    }
}

/// The table at `pos` and the position after it; nothing where the header is cut short or
/// invalid.
#[verifier::opaque]
pub open spec fn parse_table(bits: Seq<bool>, pos: int) -> (Option<TableModel>, int) {
    let (min_opt, p1) = read_n(bits, pos, 5);
    let (max_opt, p2) = read_n(bits, p1, 5);
    match (min_opt, max_opt) {
        (Some(min), Some(max)) => if max < min {
            (None, p2)
        } else if min == 31 && max == 31 {
            (
                Some(
                    TableModel {
                        entries: Seq::empty(),
                        min_len: 31,
                        max_len: 31,
                        single_symbol: None,
                        empty: true,
                    },
                ),
                p2,
            )
        } else if min == 0 && max == 0 {
            let (symbol, p3) = read_n(bits, p2, 8);
            match symbol {
                None => (None, p3),
                Some(s) => (
                    Some(
                        TableModel {
                            entries: Seq::empty(),
                            min_len: 0,
                            max_len: 0,
                            single_symbol: Some(s as u8),
                            empty: false,
                        },
                    ),
                    p3,
                ),
            }
        } else {
            let (lengths, p3) = read_lengths(bits, p2, min, max);
            match lengths {
                None => (None, p3),
                Some(lens) => if count_coded(lens, 256) == 0 {
                    (None, p3)
                } else {
                    (
                        Some(
                            TableModel {
                                entries: entries_upto(lens, max as int, max as int),
                                min_len: min as u8,
                                max_len: max as u8,
                                single_symbol: None,
                                empty: false,
                            },
                        ),
                        p3,
                    )
                },
            }
        },
        _ => (None, p2),
    }
}

/// The symbol of the first entry from `i` on with the given length and code.
pub open spec fn lookup(entries: Seq<(u8, u8, u32)>, i: int, len: int, code: int) -> Option<u8>
    decreases entries.len() - i,
{
    if i < 0 || i >= entries.len() {
        None
    } else if entries[i].0 == len && entries[i].2 == code {
        Some(entries[i].1)
    } else {
        lookup(entries, i + 1, len, code)
    }
}

/// The symbol that a walk bit by bit from `pos` finds, with `len` bits read so far that make
/// up `code`, and the position after it.
pub open spec fn walk_code(t: TableModel, bits: Seq<bool>, pos: int, code: int, len: int) -> (
    Option<u8>,
    int,
)
    decreases bits.len() - pos,
{
    if pos >= bits.len() {
        (None, pos)
    } else {
        let next = (2 * code + (if bits[pos] {
            1int
        } else {
            0int
        })) % 0x1_0000_0000;
        match lookup(t.entries, 0, len + 1, next) {
            Some(s) => (Some(s), pos + 1),
            None => if len + 1 > t.max_len {
                (None, pos + 1)
            } else {
                walk_code(t, bits, pos + 1, next, len + 1)
            },
        }
    }
}

/// The symbol that a decoder with table `t` finds at `pos`, and the position after it.
pub open spec fn decode_at(t: TableModel, bits: Seq<bool>, pos: int) -> (Option<u8>, int) {
    if t.single_symbol is Some {
        (t.single_symbol, pos)
    } else if t.empty {
        (None, pos)
    } else {
        walk_code(t, bits, pos, 0, 0)
    }
}

/// Parsed Huffman table (decoder side).
#[derive(Debug)]
pub struct HuffmanDecoderTable {
    /// Canonical entries sorted by (length asc, symbol desc): (length, symbol, code).
    pub entries: Vec<(u8, u8, u32)>,
    pub min_len: u8,
    pub max_len: u8,
    pub single_symbol: Option<u8>,
    pub empty: bool,
}

impl View for HuffmanDecoderTable {
    type V = TableModel;

    open spec fn view(&self) -> TableModel {
        TableModel {
            entries: self.entries@,
            min_len: self.min_len,
            max_len: self.max_len,
            single_symbol: self.single_symbol,
            empty: self.empty,
        }
    }
}

/// Collect the coded symbols with their canonical codes, sorted by (length asc, symbol desc).
fn canonical_entries(lengths: &[u8; MAX_SYMBOLS], max_len: u8) -> (entries: Vec<(u8, u8, u32)>)
    requires
        forall|s: int| 0 <= s < 256 ==> lengths@[s] <= max_len,
    ensures
        entries@ == entries_upto(lengths@, max_len as int, max_len as int),
{
    let code = canonical_codes(lengths, max_len);
    let mut entries: Vec<(u8, u8, u32)> = Vec::new();
    let mut l: u16 = 1;
    let ghost lens = lengths@;
    while l <= max_len as u16
        invariant
            1 <= l <= max_len + 1,
            lens == lengths@,
            forall|s: int|
                0 <= s < 256 ==> code@[s] == #[trigger] code_of(lens, max_len as int, s),
            entries@ == entries_upto(lens, max_len as int, l - 1),
        decreases max_len + 1 - l,
    {
        let mut n: usize = MAX_SYMBOLS;
        let ghost before = entries@;
        assert(entries@ + entries_of_len(lens, max_len as int, l as int, 256) =~= entries_upto(
            lens,
            max_len as int,
            l as int,
        ));
        while n > 0
            invariant
                n <= 256,
                1 <= l <= max_len,
                lens == lengths@,
                forall|s: int|
                    0 <= s < 256 ==> code@[s] == #[trigger] code_of(lens, max_len as int, s),
                entries@ + entries_of_len(lens, max_len as int, l as int, n as int)
                    == entries_upto(lens, max_len as int, l as int),
            decreases n,
        {
            let ghost rest = entries_of_len(lens, max_len as int, l as int, n - 1);
            let ghost head = entries@;
            n = n - 1;
            if lengths[n] as u16 == l {
                assert(code@[n as int] == code_of(lens, max_len as int, n as int));
                entries.push((l as u8, n as u8, code[n]));
                assert(entries@ + rest =~= head + (seq![(l as u8, n as u8, code@[n as int])]
                    + rest));
            }
        }
        assert(entries@ =~= entries_upto(lens, max_len as int, l as int));
        l = l + 1;
    }
    entries
}

proof fn lemma_read_n_bound(bits: Seq<bool>, pos: int, n: nat)
    requires
        0 <= pos <= bits.len(),
    ensures
        read_n(bits, pos, n).0 is Some ==> read_n(bits, pos, n).0->0 < bitstream::two_pow(n),
        pos <= read_n(bits, pos, n).1 <= bits.len(),
{
    if pos + n <= bits.len() {
        bitstream::lemma_bits_value_bound(bits.subrange(pos, pos + n));
    }
}

/// Read a code-length offset.
fn read_extra(r: &mut BitReader, bits: u32) -> (v: Option<u8>)
    requires
        old(r).wf(),
        bits <= 5,
    ensures
        final(r).wf(),
        final(r).bits() == old(r).bits(),
        final(r).pos() == read_n(old(r).bits(), old(r).pos(), bits as nat).1,
        v is Some <==> read_n(old(r).bits(), old(r).pos(), bits as nat).0 is Some,
        v is Some ==> v->0 == read_n(old(r).bits(), old(r).pos(), bits as nat).0->0 && v->0 < 32,
{
    proof {
        bitstream::lemma_two_pow_mono(bits as nat, 5);
        bitstream::lemma_two_pow_values();
        r.lemma_pos();
        lemma_read_n_bound(r.bits(), r.pos(), bits as nat);
    }
    match r.read_bits(bits) {
        Some(v) => Some(v as u8),
        None => None,
    }
}

impl<'a> BitReader<'a> {
    proof fn lemma_pos(&self)
        requires
            self.wf(),
        ensures
            0 <= self.pos() <= self.bits().len(),
    {
    }

    /// Read a byte.
    pub(crate) fn read_u8(&mut self) -> (v: Option<u8>)
        requires
            old(self).wf(),
        ensures
            final(self).wf(),
            final(self).bits() == old(self).bits(),
            0 <= old(self).pos() <= old(self).bits().len(),
            final(self).pos() == read_n(old(self).bits(), old(self).pos(), 8).1,
            v is Some <==> read_n(old(self).bits(), old(self).pos(), 8).0 is Some,
            v is Some ==> v->0 == read_n(old(self).bits(), old(self).pos(), 8).0->0,
    {
        proof {
            lemma_read_n_bound(self.bits(), self.pos(), 8);
            bitstream::lemma_two_pow_values();
        }
        match self.read_bits(8) {
            Some(v) => Some(v as u8),
            None => None,
        }
    }
}

proof fn lemma_read_one(bits: Seq<bool>, pos: int)
    requires
        0 <= pos < bits.len(),
    ensures
        read_n(bits, pos, 1) == (
            Some(
                if bits[pos] {
                    1nat
                } else {
                    0nat
                },
            ),
            pos + 1,
        ),
{
    let s = bits.subrange(pos, pos + 1);
    assert(s.drop_last() =~= Seq::empty());
    assert(bitstream::bits_value(s.drop_last()) == 0);
}

impl HuffmanDecoderTable {
    /// Read the code lengths that follow the two length limits.
    fn parse_lengths(r: &mut BitReader, min_len: u8, max_len: u8) -> (res: Option<
        [u8; MAX_SYMBOLS],
    >)
        requires
            old(r).wf(),
            min_len <= max_len <= 31,
        ensures
            final(r).wf(),
            final(r).bits() == old(r).bits(),
            final(r).pos() == read_lengths(
                old(r).bits(),
                old(r).pos(),
                min_len as nat,
                max_len as nat,
            ).1,
            res is Some <==> read_lengths(
                old(r).bits(),
                old(r).pos(),
                min_len as nat,
                max_len as nat,
            ).0 is Some,
            res is Some ==> res->0@ == read_lengths(
                old(r).bits(),
                old(r).pos(),
                min_len as nat,
                max_len as nat,
            ).0->0 && forall|s: int| 0 <= s < 256 ==> res->0@[s] <= max_len,
    {
        let ghost bits = r.bits();
        let ghost start = r.pos();
        let ghost min = min_len as nat;
        let ghost max = max_len as nat;
        let lb: u32 = length_bits_for_range((max_len - min_len) as u32);
        proof {
            r.lemma_pos();
            lemma_length_bits((max - min) as nat);
            assert(lb <= 5) by {
                reveal_with_fuel(length_bits, 6);
            }
            if start < bits.len() {
                lemma_read_one(bits, start);
            }
        }
        let presence: bool = match r.read_bit() {
            Some(b) => b,
            None => {
                return None;
            },
        };
        let mut lengths: [u8; MAX_SYMBOLS] = [0u8; MAX_SYMBOLS];
        assert(lengths@ =~= no_lengths());
        if presence {
            let mut i: usize = 0;
            while i < MAX_SYMBOLS
                invariant
                    i <= 256,
                    r.wf(),
                    r.bits() == bits,
                    bits == old(r).bits(),
                    start == old(r).pos(),
                    min == min_len,
                    max == max_len,
                    min_len <= max_len <= 31,
                    lb == length_bits((max - min) as nat),
                    lb <= 5,
                    forall|s: int| 0 <= s < 256 ==> lengths@[s] <= max_len,
                    read_lengths(bits, start, min, max) == read_bitmap(
                        bits,
                        r.pos(),
                        i as int,
                        min,
                        max,
                        lengths@,
                    ),
                decreases 256 - i,
            {
                proof {
                    r.lemma_pos();
                    if r.pos() < bits.len() {
                        lemma_read_one(bits, r.pos());
                    }
                }
                match r.read_bit() {
                    Some(b) => {
                        if b {
                            match read_extra(r, lb) {
                                Some(extra) => {
                                    let l: u8 = min_len + extra;
                                    if l > max_len {
                                        return None;
                                    }
                                    if l > 0 {
                                        lengths[i] = l;
                                    }
                                },
                                None => {
                                    return None;
                                },
                            }
                        }
                    },
                    None => {
                        return None;
                    },
                }
                i = i + 1;
            }
        } else {
            let ghost p1 = r.pos();
            proof {
                r.lemma_pos();
                lemma_read_n_bound(bits, r.pos(), 5);
                bitstream::lemma_two_pow_values();
            }
            let count: u64 = match r.read_bits(5) {
                Some(c) => c,
                None => {
                    return None;
                },
            };
            if count == 0 {
                return None;
            }
            let mut left: u64 = count;
            while left > 0
                invariant
                    r.wf(),
                    r.bits() == bits,
                    bits == old(r).bits(),
                    start == old(r).pos(),
                    min == min_len,
                    max == max_len,
                    min_len <= max_len <= 31,
                    lb == length_bits((max - min) as nat),
                    lb <= 5,
                    forall|s: int| 0 <= s < 256 ==> lengths@[s] <= max_len,
                    read_lengths(bits, start, min, max) == read_list(
                        bits,
                        r.pos(),
                        left as nat,
                        min,
                        max,
                        lengths@,
                    ),
                decreases left,
            {
                let symbol: u8 = match r.read_u8() {
                    Some(s) => s,
                    None => {
                        return None;
                    },
                };
                match read_extra(r, lb) {
                    Some(extra) => {
                        let l: u8 = min_len + extra;
                        if l > max_len || l == 0 {
                            return None;
                        }
                        lengths[symbol as usize] = l;
                    },
                    None => {
                        return None;
                    },
                }
                left = left - 1;
            }
        }
        Some(lengths)
    }

    /// Parse a table header from the reader.
    #[verifier::rlimit(30)]
    pub fn parse(r: &mut BitReader) -> (t: Option<HuffmanDecoderTable>)
        requires
            old(r).wf(),
        ensures
            final(r).wf(),
            final(r).bits() == old(r).bits(),
            final(r).pos() == parse_table(old(r).bits(), old(r).pos()).1,
            t is Some <==> parse_table(old(r).bits(), old(r).pos()).0 is Some,
            t is Some ==> t->0@ == parse_table(old(r).bits(), old(r).pos()).0->0,
    {
        let ghost bits = r.bits();
        proof {
            reveal(parse_table);
            bitstream::lemma_two_pow_values();
            r.lemma_pos();
            lemma_read_n_bound(bits, r.pos(), 5);
            lemma_read_n_bound(bits, read_n(bits, r.pos(), 5).1, 5);
        }
        let min_len: u8 = match r.read_bits(5) {
            Some(v) => v as u8,
            None => {
                return None;
            },
        };
        let max_len: u8 = match r.read_bits(5) {
            Some(v) => v as u8,
            None => {
                return None;
            },
        };
        if max_len < min_len {
            return None;
        }
        if min_len == 31 && max_len == 31 {
            let t = HuffmanDecoderTable {
                entries: Vec::new(),
                min_len,
                max_len,
                single_symbol: None,
                empty: true,
            };
            assert(t@.entries =~= Seq::empty());
            return Some(t);
        }
        if min_len == 0 && max_len == 0 {
            match r.read_u8() {
                Some(symbol) => {
                    let t = HuffmanDecoderTable {
                        entries: Vec::new(),
                        min_len,
                        max_len,
                        single_symbol: Some(symbol),
                        empty: false,
                    };
                    assert(t@.entries =~= Seq::empty());
                    return Some(t);
                },
                None => {
                    return None;
                },
            }
        }
        let lengths: [u8; MAX_SYMBOLS] = match HuffmanDecoderTable::parse_lengths(
            r,
            min_len,
            max_len,
        ) {
            Some(l) => l,
            None => {
                return None;
            },
        };
        if count_nonzero(&lengths) == 0 {
            return None;
        }
        let entries = canonical_entries(&lengths, max_len);
        Some(HuffmanDecoderTable { entries, min_len, max_len, single_symbol: None, empty: false })
    }

    /// The symbol of the first entry with the given length and code.
    fn find(&self, len: u32, code: u32) -> (s: Option<u8>)
        ensures
            s == lookup(self.entries@, 0, len as int, code as int),
    {
        let mut i: usize = 0;
        while i < self.entries.len()
            invariant
                i <= self.entries@.len(),
                lookup(self.entries@, 0, len as int, code as int) == lookup(
                    self.entries@,
                    i as int,
                    len as int,
                    code as int,
                ),
            decreases self.entries@.len() - i,
        {
            if self.entries[i].0 as u32 == len && self.entries[i].2 == code {
                return Some(self.entries[i].1);
            }
            i = i + 1;
        }
        None
    }

    /// Decode the next symbol.
    pub fn decode(&self, r: &mut BitReader) -> (s: Option<u8>)
        requires
            old(r).wf(),
        ensures
            final(r).wf(),
            final(r).bits() == old(r).bits(),
            (s, final(r).pos()) == decode_at(self@, old(r).bits(), old(r).pos()),
    {
        if self.single_symbol.is_some() {
            return self.single_symbol;
        }
        if self.empty {
            return None;
        }
        let mut code: u32 = 0;
        let mut len: u32 = 0;
        let ghost bits = r.bits();
        loop
            invariant
                r.wf(),
                r.bits() == bits,
                bits == old(r).bits(),
                len <= self.max_len,
                decode_at(self@, bits, old(r).pos()) == walk_code(
                    self@,
                    bits,
                    r.pos(),
                    code as int,
                    len as int,
                ),
            decreases self.max_len + 1 - len,
        {
            let bit: bool = match r.read_bit() {
                Some(b) => b,
                None => {
                    return None;
                },
            };
            let x: u32 = if bit {
                1
            } else {
                0
            };
            assert((code << 1u32) | x == (code * 2 + x) % 0x1_0000_0000) by (bit_vector)
                requires
                    x <= 1,
            ;
            code = (code << 1) | x;
            len = len + 1;
            match self.find(len, code) {
                Some(s) => {
                    return Some(s);
                },
                None => {
                    if len > self.max_len as u32 {
                        return None;
                    }
                },
            }
        }
    }
}

/// Number of symbols that have a code.
fn count_nonzero(lengths: &[u8; MAX_SYMBOLS]) -> (n: usize)
    ensures
        n == count_coded(lengths@, 256),
        n <= 256,
{
    let mut n: usize = 0;
    let mut s: usize = 0;
    while s < MAX_SYMBOLS
        invariant
            s <= 256,
            n <= s,
            n == count_coded(lengths@, s as int),
        decreases 256 - s,
    {
        if lengths[s] > 0 {
            n = n + 1;
        }
        s = s + 1;
    }
    n
}

/// `m` is the least nonzero length.
pub open spec fn is_min_len(lengths: Seq<u8>, m: u8) -> bool {
    &&& m > 0
    &&& exists|s: int| 0 <= s < 256 && #[trigger] lengths[s] == m
    &&& forall|s: int| 0 <= s < 256 && #[trigger] lengths[s] > 0 ==> m <= lengths[s]
}

/// `m` is the greatest length.
pub open spec fn is_max_len(lengths: Seq<u8>, m: u8) -> bool {
    &&& exists|s: int| 0 <= s < 256 && #[trigger] lengths[s] == m
    &&& forall|s: int| 0 <= s < 256 ==> #[trigger] lengths[s] <= m
}

/// The least nonzero length and the greatest length.
fn length_range(lengths: &[u8; MAX_SYMBOLS]) -> (r: (u8, u8))
    requires
        exists|s: int| 0 <= s < 256 && #[trigger] lengths@[s] > 0,
    ensures
        is_min_len(lengths@, r.0),
        is_max_len(lengths@, r.1),
{
    let mut min: u8 = 0;
    let mut max: u8 = 0;
    let mut s: usize = 0;
    while s < MAX_SYMBOLS
        invariant
            s <= 256,
            max > 0 ==> exists|t: int| 0 <= t < s && #[trigger] lengths@[t] == max,
            forall|t: int| 0 <= t < s ==> #[trigger] lengths@[t] <= max,
            (min == 0) == (max == 0),
            min > 0 ==> exists|t: int| 0 <= t < s && #[trigger] lengths@[t] == min,
            min > 0 ==> forall|t: int|
                0 <= t < s && #[trigger] lengths@[t] > 0 ==> min <= lengths@[t],
        decreases 256 - s,
    {
        let l: u8 = lengths[s];
        assert(lengths@[s as int] == l);
        if l > max {
            max = l;
        }
        if l > 0 && (min == 0 || l < min) {
            min = l;
        }
        s = s + 1;
    }
    (min, max)
}

/// Build Huffman code lengths from symbol frequencies.
/// Returns `None` if there are no symbols (all frequencies zero), or
/// `Some((lengths, min_len, max_len))` otherwise.
pub fn build_code_lengths(frequencies: &[u64; MAX_SYMBOLS]) -> (r: Option<
    ([u8; MAX_SYMBOLS], u8, u8),
>)
    requires
        tree::freq_sum(frequencies@, 256) <= u64::MAX,
    ensures
        r is None <==> (forall|s: int| 0 <= s < 256 ==> frequencies@[s] == 0),
        r matches Some((lengths, min_len, max_len)) ==> {
            &&& lengths@ == tree::huffman_lengths(frequencies@)
            &&& is_min_len(lengths@, min_len)
            &&& is_max_len(lengths@, max_len)
            &&& forall|s: int|
                0 <= s < 256 ==> (#[trigger] lengths@[s] > 0 <==> frequencies@[s] > 0)
        },
{
    let ghost freqs = frequencies@;
    let nodes = tree::make_leaves(frequencies);
    proof {
        tree::lemma_leaves_present(freqs, 256);
        tree::lemma_leaves_freq(freqs, 256);
    }
    if nodes.len() == 0 {
        return None;
    }
    let mut lengths: [u8; MAX_SYMBOLS] = [0u8; MAX_SYMBOLS];
    assert(lengths@ =~= no_lengths());
    if nodes.len() == 1 {
        let symbol: u8 = match &nodes[0] {
            tree::Tree::Leaf { symbol, .. } => *symbol,
            tree::Tree::Node { .. } => 0,
        };
        proof {
            tree::lemma_leaves_single(freqs, 256);
        }
        lengths[symbol as usize] = 1;
        assert(lengths@[symbol as int] == 1);
        return Some((lengths, 1, 1));
    }
    let root = tree::build_tree(nodes);
    proof {
        tree::lemma_build_leaves(freqs);
    }
    root.walk(0, &mut lengths);
    proof {
        tree::lemma_huffman_lengths(freqs, 255);
        let s = choose|s: int| 0 <= s < 256 && #[trigger] freqs[s] > 0;
        assert(lengths@[s] > 0);
    }
    let (min_len, max_len) = length_range(&lengths);
    Some((lengths, min_len, max_len))
}

/// A single Huffman table ready for encoding.
pub struct HuffmanTable {
    /// The canonical code of each symbol.
    pub code: [u32; MAX_SYMBOLS],
    /// The code length of each symbol, zero where it has no code.
    pub length: [u8; MAX_SYMBOLS],
    pub min_len: u8,
    pub max_len: u8,
    /// The symbol when the table has exactly one (signalled via a 0,0 header).
    pub single_symbol: Option<u8>,
    /// True when the table is empty (31,31 header).
    pub empty: bool,
}

/// What a table says, for an encoder.
#[verifier::ext_equal]
pub struct CodeModel {
    pub code: Seq<u32>,
    pub length: Seq<u8>,
    pub min_len: u8,
    pub max_len: u8,
    pub single_symbol: Option<u8>,
    pub empty: bool,
}

impl View for HuffmanTable {
    type V = CodeModel;

    open spec fn view(&self) -> CodeModel {
        CodeModel {
            code: self.code@,
            length: self.length@,
            min_len: self.min_len,
            max_len: self.max_len,
            single_symbol: self.single_symbol,
            empty: self.empty,
        }
    }
}

/// No symbol has a code.
pub open spec fn no_codes() -> Seq<u32> {
    Seq::new(256, |i: int| 0u32)
}

/// `c` is the table for symbols that occur `freqs[s]` times each.
pub open spec fn is_table_for(c: CodeModel, freqs: Seq<u64>) -> bool {
    let n = tree::leaves(freqs, 256).len();
    let lens = tree::huffman_lengths(freqs);
    if n == 0 {
        &&& c.code == no_codes()
        &&& c.length == no_lengths()
        &&& c.min_len == 31
        &&& c.max_len == 31
        &&& c.single_symbol is None
        &&& c.empty
    } else if n == 1 {
        &&& c.code == no_codes()
        &&& c.length == no_lengths()
        &&& c.min_len == 0
        &&& c.max_len == 0
        &&& c.single_symbol == Some(tree::leaves(freqs, 256)[0]->Leaf_symbol)
        &&& !c.empty
    } else {
        &&& c.length == lens
        &&& is_min_len(lens, c.min_len)
        &&& is_max_len(lens, c.max_len)
        &&& c.code.len() == 256
        &&& forall|s: int|
            0 <= s < 256 ==> #[trigger] c.code[s] == code_of(lens, c.max_len as int, s)
        &&& c.single_symbol is None
        &&& !c.empty
    }
}

/// The list of coded symbols from `i` on, as it stands in a header.
pub open spec fn list_bits(c: CodeModel, i: int) -> Seq<bool>
    decreases 256 - i,
{
    if i >= 256 {
        Seq::empty()
    } else if c.length[i] > 0 {
        bitstream::bits_of(i as nat, 8) + bitstream::bits_of(
            (c.length[i] - c.min_len) as nat,
            length_bits((c.max_len - c.min_len) as nat),
        ) + list_bits(c, i + 1)
    } else {
        list_bits(c, i + 1)
    }
}

/// The presence bitmap from symbol `i` on, as it stands in a header.
pub open spec fn bitmap_bits(c: CodeModel, i: int) -> Seq<bool>
    decreases 256 - i,
{
    if i >= 256 {
        Seq::empty()
    } else if c.length[i] > 0 {
        seq![true] + bitstream::bits_of(
            (c.length[i] - c.min_len) as nat,
            length_bits((c.max_len - c.min_len) as nat),
        ) + bitmap_bits(c, i + 1)
    } else {
        seq![false] + bitmap_bits(c, i + 1)
    }
}

/// The header of a table.
#[verifier::opaque]
pub open spec fn header_bits(c: CodeModel) -> Seq<bool> {
    bitstream::bits_of(c.min_len as nat, 5) + bitstream::bits_of(c.max_len as nat, 5) + (
    if c.empty {
        Seq::empty()
    } else {
        match c.single_symbol {
            Some(s) => bitstream::bits_of(s as nat, 8),
            None => if count_coded(c.length, 256) <= 31 {
                seq![false] + bitstream::bits_of(count_coded(c.length, 256), 5) + list_bits(c, 0)
            } else {
                seq![true] + bitmap_bits(c, 0)
            },
        }
    })
}

/// The coded form of a symbol; a lone symbol takes no bits.
pub open spec fn symbol_bits(c: CodeModel, symbol: u8) -> Seq<bool> {
    if c.single_symbol is Some {
        Seq::empty()
    } else {
        bitstream::bits_of(c.code[symbol as int] as nat, c.length[symbol as int] as nat)
    }
}

/// A table whose header can be written: its length limits enclose the lengths.
pub open spec fn header_ok(c: CodeModel) -> bool {
    !c.empty && c.single_symbol is None ==> c.min_len <= c.max_len && c.length.len() == 256
        && forall|s: int|
        0 <= s < 256 && #[trigger] c.length[s] > 0 ==> c.min_len <= c.length[s]
}

impl HuffmanTable {
    /// Build from frequencies.
    pub fn from_frequencies(frequencies: &[u64; MAX_SYMBOLS]) -> (t: HuffmanTable)
        requires
            tree::freq_sum(frequencies@, 256) <= u64::MAX,
        ensures
            is_table_for(t@, frequencies@),
            header_ok(t@),
    {
        let ghost freqs = frequencies@;
        proof {
            tree::lemma_leaves_present(freqs, 256);
        }
        let (lengths, min_len, max_len) = match build_code_lengths(frequencies) {
            Some(x) => x,
            None => {
                let t = HuffmanTable {
                    code: [0u32; MAX_SYMBOLS],
                    length: [0u8; MAX_SYMBOLS],
                    min_len: 31,
                    max_len: 31,
                    single_symbol: None,
                    empty: true,
                };
                assert(t@.code =~= no_codes());
                assert(t@.length =~= no_lengths());
                return t;
            },
        };
        proof {
            lemma_leaves_count_coded(freqs, lengths@, 256);
        }
        if count_nonzero(&lengths) == 1 {
            proof {
                tree::lemma_leaves_single(freqs, 256);
            }
            let mut s: usize = 0;
            while lengths[s] == 0
                invariant
                    s < 256,
                    exists|u: int| s <= u < 256 && #[trigger] lengths@[u] > 0,
                    forall|u: int| 0 <= u < s ==> #[trigger] lengths@[u] == 0,
                decreases 256 - s,
            {
                s = s + 1;
            }
            let t = HuffmanTable {
                code: [0u32; MAX_SYMBOLS],
                length: [0u8; MAX_SYMBOLS],
                min_len: 0,
                max_len: 0,
                single_symbol: Some(s as u8),
                empty: false,
            };
            proof {
                assert(t@.code =~= no_codes());
                assert(t@.length =~= no_lengths());
                assert(lengths@[s as int] > 0);
                assert(freqs[s as int] > 0);
            }
            return t;
        }
        let code = canonical_codes(&lengths, max_len);
        HuffmanTable { code, length: lengths, min_len, max_len, single_symbol: None, empty: false }
    }

    /// Write the table header to the bit writer.
    pub fn write_header(&self, w: &mut BitWriter)
        requires
            old(w).wf(),
            old(w)@.len() + 5000 <= u64::MAX,
            header_ok(self@),
        ensures
            final(w).wf(),
            final(w)@ == old(w)@ + header_bits(self@),
            final(w)@.len() <= old(w)@.len() + 5000,
    {
        let ghost start = w@;
        proof {
            reveal(header_bits);
            bitstream::lemma_bits_of_len(self.min_len as nat, 5);
            bitstream::lemma_bits_of_len(self.max_len as nat, 5);
        }
        w.write_bits(self.min_len as u64, 5);
        w.write_bits(self.max_len as u64, 5);
        let ghost limits = bitstream::bits_of(self.min_len as nat, 5) + bitstream::bits_of(
            self.max_len as nat,
            5,
        );
        assert(w@ =~= start + limits);
        if self.empty {
            assert(w@ =~= start + header_bits(self@));
            return;
        }
        if let Some(s) = self.single_symbol {
            proof {
                bitstream::lemma_bits_of_len(s as nat, 8);
            }
            w.write_byte(s);
            assert(w@ =~= start + header_bits(self@));
            return;
        }
        let lb: u32 = length_bits_for_range((self.max_len - self.min_len) as u32);
        proof {
            lemma_length_bits((self.max_len - self.min_len) as nat);
        }
        let n: usize = count_nonzero(&self.length);
        if n <= 31 {
            proof {
                bitstream::lemma_bits_of_len(n as nat, 5);
            }
            w.write_bit(false);
            w.write_bits(n as u64, 5);
            let mut s: usize = 0;
            assert(w@ + list_bits(self@, 0) =~= start + header_bits(self@));
            while s < MAX_SYMBOLS
                invariant
                    s <= 256,
                    w.wf(),
                    !self.empty,
                    self.single_symbol is None,
                    header_ok(self@),
                    lb == length_bits((self.max_len - self.min_len) as nat),
                    lb <= 8,
                    start.len() + 5000 <= u64::MAX,
                    w@.len() <= start.len() + 16 + 16 * s,
                    w@ + list_bits(self@, s as int) == start + header_bits(self@),
                decreases 256 - s,
            {
                let ghost before = w@;
                if self.length[s] > 0 {
                    proof {
                        assert(self@.length[s as int] > 0);
                        bitstream::lemma_bits_of_len(s as nat, 8);
                        bitstream::lemma_bits_of_len(
                            (self.length[s as int] - self.min_len) as nat,
                            lb as nat,
                        );
                    }
                    w.write_byte(s as u8);
                    w.write_bits((self.length[s] - self.min_len) as u64, lb);
                    assert(w@ + list_bits(self@, s + 1) =~= before + list_bits(self@, s as int));
                }
                s = s + 1;
            }
            assert(w@ =~= start + header_bits(self@));
        } else {
            w.write_bit(true);
            let mut s: usize = 0;
            assert(w@ + bitmap_bits(self@, 0) =~= start + header_bits(self@));
            while s < MAX_SYMBOLS
                invariant
                    s <= 256,
                    w.wf(),
                    !self.empty,
                    self.single_symbol is None,
                    header_ok(self@),
                    lb == length_bits((self.max_len - self.min_len) as nat),
                    lb <= 8,
                    start.len() + 5000 <= u64::MAX,
                    w@.len() <= start.len() + 11 + 9 * s,
                    w@ + bitmap_bits(self@, s as int) == start + header_bits(self@),
                decreases 256 - s,
            {
                let ghost before = w@;
                if self.length[s] > 0 {
                    proof {
                        assert(self@.length[s as int] > 0);
                        bitstream::lemma_bits_of_len(
                            (self.length[s as int] - self.min_len) as nat,
                            lb as nat,
                        );
                    }
                    w.write_bit(true);
                    w.write_bits((self.length[s] - self.min_len) as u64, lb);
                } else {
                    w.write_bit(false);
                }
                assert(w@ + bitmap_bits(self@, s + 1) =~= before + bitmap_bits(self@, s as int));
                s = s + 1;
            }
            assert(w@ =~= start + header_bits(self@));
        }
    }

    /// Encode one symbol into the bit writer. A table with one symbol writes nothing for it.
    pub fn write_symbol(&self, w: &mut BitWriter, symbol: u8)
        requires
            old(w).wf(),
            old(w)@.len() + 255 <= u64::MAX,
            self.single_symbol is Some ==> self.single_symbol == Some(symbol),
            self.single_symbol is None ==> !self.empty,
        ensures
            final(w).wf(),
            final(w)@ == old(w)@ + symbol_bits(self@, symbol),
            final(w)@.len() <= old(w)@.len() + 255,
    {
        if self.single_symbol.is_some() {
            assert(w@ =~= old(w)@ + symbol_bits(self@, symbol));
            return;
        }
        let len: u32 = self.length[symbol as usize] as u32;
        let code: u64 = self.code[symbol as usize] as u64;
        let ghost start = w@;
        proof {
            bitstream::lemma_bits_of_len(code as nat, len as nat);
        }
        // A code is below 2^64, so the bits in front of its low 64 bits are zero.
        let low: u32 = if len > 64 {
            64
        } else {
            len
        };
        let mut high: u32 = len - low;
        assert(w@ + bitstream::bits_of(code as nat, len as nat) == start + bitstream::bits_of(
            code as nat,
            len as nat,
        ));
        while high > 0
            invariant
                high + low == len - (w@.len() - start.len()),
                high > 0 ==> low == 64,
                len <= 255,
                w.wf(),
                start.len() + 255 <= u64::MAX,
                start.len() <= w@.len(),
                code <= u32::MAX,
                w@ + bitstream::bits_of(code as nat, (high + low) as nat) == start
                    + bitstream::bits_of(code as nat, len as nat),
            decreases high,
        {
            proof {
                lemma_leading_zero(code as nat, (high + low) as nat);
            }
            let ghost before = w@;
            w.write_bit(false);
            high = high - 1;
            assert(w@ + bitstream::bits_of(code as nat, (high + low) as nat) =~= before + (seq![
                false,
            ] + bitstream::bits_of(code as nat, (high + low) as nat)));
        }
        w.write_bits(code, low);
    }
}

/// The top one of `n` bits of a number below two to the `n - 1` is zero.
proof fn lemma_leading_zero(v: nat, n: nat)
    requires
        n >= 1,
        n > 32,
        v <= u32::MAX,
    ensures
        bitstream::bits_of(v, n) == seq![false] + bitstream::bits_of(v, (n - 1) as nat),
{
    let m = (n - 1) as nat;
    bitstream::lemma_bits_of_split(v, 1, m);
    bitstream::lemma_two_pow_mono(32, m);
    bitstream::lemma_two_pow_values();
    vstd::arithmetic::div_mod::lemma_basic_div(v as int, bitstream::two_pow(m) as int);
    assert(1 + m == n);
    assert(bitstream::bits_of(0, 1) =~= seq![false]) by {
        reveal_with_fuel(bitstream::bits_of, 2);
    }
}

/// As many leaves as coded symbols.
proof fn lemma_leaves_count_coded(freqs: Seq<u64>, lens: Seq<u8>, n: int)
    requires
        0 <= n <= 256,
        lens.len() == 256,
        forall|s: int| 0 <= s < 256 ==> (#[trigger] lens[s] > 0 <==> freqs[s] > 0),
    ensures
        tree::leaves(freqs, n).len() == count_coded(lens, n),
    decreases n,
{
    if n > 0 {
        lemma_leaves_count_coded(freqs, lens, n - 1);
        let l = lens[n - 1];
    }
}

} // verus!
