//! What a reader makes of a written Huffman table and of written symbols.
use crate::bitstream;
use crate::entropy::huffman;
use crate::entropy::huffman::{CodeModel, TableModel};
use crate::entropy::tree;
use vstd::prelude::*;

verus! {

/// The decoder's side of an encoder's table.
pub open spec fn decoder_model(c: CodeModel) -> TableModel {
    TableModel {
        entries: if c.empty || c.single_symbol is Some {
            Seq::empty()
        } else {
            huffman::entries_upto(c.length, c.max_len as int, c.max_len as int)
        },
        min_len: c.min_len,
        max_len: c.max_len,
        single_symbol: c.single_symbol,
        empty: c.empty,
    }
}

/// Reading `n` bits where the `n`-bit number `v` stands gives `v`.
pub proof fn lemma_read_back(bits: Seq<bool>, pos: int, v: nat, n: nat)
    requires
        v < bitstream::two_pow(n),
        bitstream::has_at(bits, pos, bitstream::bits_of(v, n)),
    ensures
        huffman::read_n(bits, pos, n) == (Some(v), pos + n),
        bitstream::bits_of(v, n).len() == n,
{
    bitstream::law_bits_roundtrip(v, n);
}

pub proof fn lemma_read_flag(bits: Seq<bool>, pos: int, b: bool)
    requires
        bitstream::has_at(bits, pos, seq![b]),
    ensures
        huffman::read_n(bits, pos, 1) == (
            Some(
                if b {
                    1nat
                } else {
                    0nat
                },
            ),
            pos + 1,
        ),
        bits[pos] == b,
{
    let s = bits.subrange(pos, pos + 1);
    assert(s[0] == b);
    assert(s.drop_last() =~= Seq::empty());
    assert(bitstream::bits_value(s.drop_last()) == 0);
}

/// `lens` has the lengths of `full` below `i`, and none from `i` on.
spec fn agrees_below(full: Seq<u8>, lens: Seq<u8>, i: int) -> bool {
    &&& full.len() == 256
    &&& lens.len() == 256
    &&& forall|s: int|
        0 <= s < 256 ==> #[trigger] lens[s] == (if s < i {
            full[s]
        } else {
            0
        })
}

spec fn limits_ok(c: CodeModel) -> bool {
    &&& 1 <= c.min_len <= c.max_len <= 31
    &&& c.length.len() == 256
    &&& forall|s: int|
        0 <= s < 256 && #[trigger] c.length[s] > 0 ==> c.min_len <= c.length[s] <= c.max_len
}

proof fn lemma_offset_fits(c: CodeModel, i: int)
    requires
        limits_ok(c),
        0 <= i < 256,
        c.length[i] > 0,
    ensures
        (c.length[i] - c.min_len) < bitstream::two_pow(
            huffman::length_bits((c.max_len - c.min_len) as nat),
        ),
{
    huffman::lemma_length_bits((c.max_len - c.min_len) as nat);
}

proof fn lemma_read_bitmap(c: CodeModel, bits: Seq<bool>, pos: int, i: int, lens: Seq<u8>)
    requires
        limits_ok(c),
        0 <= i <= 256,
        agrees_below(c.length, lens, i),
        bitstream::has_at(bits, pos, huffman::bitmap_bits(c, i)),
    ensures
        huffman::read_bitmap(bits, pos, i, c.min_len as nat, c.max_len as nat, lens) == (
            Some(c.length),
            pos + huffman::bitmap_bits(c, i).len(),
        ),
    decreases 256 - i,
{
    if i >= 256 {
        assert(lens =~= c.length);
    } else {
        let rest = huffman::bitmap_bits(c, i + 1);
        if c.length[i] > 0 {
            let off = (c.length[i] - c.min_len) as nat;
            let lb = huffman::length_bits((c.max_len - c.min_len) as nat);
            let ob = bitstream::bits_of(off, lb);
            bitstream::lemma_has_at_concat(bits, pos, seq![true] + ob, rest);
            bitstream::lemma_has_at_concat(bits, pos, seq![true], ob);
            lemma_read_flag(bits, pos, true);
            lemma_offset_fits(c, i);
            lemma_read_back(bits, pos + 1, off, lb);
            lemma_read_bitmap(c, bits, pos + 1 + lb, i + 1, lens.update(i, c.length[i]));
        } else {
            bitstream::lemma_has_at_concat(bits, pos, seq![false], rest);
            lemma_read_flag(bits, pos, false);
            lemma_read_bitmap(c, bits, pos + 1, i + 1, lens);
        }
    }
}

proof fn lemma_count_coded_mono(lens: Seq<u8>, i: int, n: int)
    requires
        i <= n,
    ensures
        huffman::count_coded(lens, i) <= huffman::count_coded(lens, n),
    decreases n - i,
{
    if i < n {
        lemma_count_coded_mono(lens, i, n - 1);
    }
}

proof fn lemma_read_list(c: CodeModel, bits: Seq<bool>, pos: int, i: int, lens: Seq<u8>)
    requires
        limits_ok(c),
        0 <= i <= 256,
        agrees_below(c.length, lens, i),
        bitstream::has_at(bits, pos, huffman::list_bits(c, i)),
    ensures
        huffman::count_coded(c.length, i) <= huffman::count_coded(c.length, 256),
        huffman::read_list(
            bits,
            pos,
            (huffman::count_coded(c.length, 256) - huffman::count_coded(c.length, i)) as nat,
            c.min_len as nat,
            c.max_len as nat,
            lens,
        ) == (Some(c.length), pos + huffman::list_bits(c, i).len()),
    decreases 256 - i,
{
    lemma_count_coded_mono(c.length, i, 256);
    if i >= 256 {
        assert(lens =~= c.length);
    } else if c.length[i] > 0 {
        lemma_count_coded_mono(c.length, i + 1, 256);
        let rest = huffman::list_bits(c, i + 1);
        let off = (c.length[i] - c.min_len) as nat;
        let lb = huffman::length_bits((c.max_len - c.min_len) as nat);
        let sb = bitstream::bits_of(i as nat, 8);
        let ob = bitstream::bits_of(off, lb);
        bitstream::lemma_has_at_concat(bits, pos, sb + ob, rest);
        bitstream::lemma_has_at_concat(bits, pos, sb, ob);
        bitstream::lemma_two_pow_values();
        lemma_read_back(bits, pos, i as nat, 8);
        lemma_offset_fits(c, i);
        lemma_read_back(bits, pos + 8, off, lb);
        lemma_read_list(c, bits, pos + 8 + lb, i + 1, lens.update(i, c.length[i]));
    } else {
        lemma_read_list(c, bits, pos, i + 1, lens);
    }
}

/// Where all codes have one length there is no room for length 31 with 256 symbols.
proof fn lemma_not_all_31(lens: Seq<u8>)
    requires
        lens.len() == 256,
        forall|s: int| 0 <= s < 256 ==> #[trigger] lens[s] == 0 || lens[s] == 31,
        tree::complete(lens, 31),
    ensures
        forall|s: int| 0 <= s < 256 ==> lens[s] == 0,
{
    assert forall|k: int| 1 <= k < 31 implies #[trigger] huffman::count_len(lens, k, 256)
        == 0 by {
        lemma_count_none(lens, k, 256);
    }
    huffman::lemma_count_len_bound(lens, 31, 256);
    assert forall|k: int| 1 <= k <= 31 implies #[trigger] tree::nodes_at(lens, 31, k) % 2 == 0 by {}
    let n31 = tree::nodes_at(lens, 31, 31);
    assert(n31 == huffman::count_len(lens, 31, 256));
    assert(huffman::count_len(lens, 30, 256) == 0 && huffman::count_len(lens, 29, 256) == 0
        && huffman::count_len(lens, 28, 256) == 0 && huffman::count_len(lens, 27, 256) == 0
        && huffman::count_len(lens, 26, 256) == 0 && huffman::count_len(lens, 25, 256) == 0
        && huffman::count_len(lens, 24, 256) == 0 && huffman::count_len(lens, 23, 256) == 0
        && huffman::count_len(lens, 22, 256) == 0);
    assert(tree::nodes_at(lens, 31, 30) == n31 / 2);
    assert(tree::nodes_at(lens, 31, 29) == tree::nodes_at(lens, 31, 30) / 2);
    assert(tree::nodes_at(lens, 31, 28) == tree::nodes_at(lens, 31, 29) / 2);
    assert(tree::nodes_at(lens, 31, 27) == tree::nodes_at(lens, 31, 28) / 2);
    assert(tree::nodes_at(lens, 31, 26) == tree::nodes_at(lens, 31, 27) / 2);
    assert(tree::nodes_at(lens, 31, 25) == tree::nodes_at(lens, 31, 26) / 2);
    assert(tree::nodes_at(lens, 31, 24) == tree::nodes_at(lens, 31, 25) / 2);
    assert(tree::nodes_at(lens, 31, 23) == tree::nodes_at(lens, 31, 24) / 2);
    assert(tree::nodes_at(lens, 31, 22) == tree::nodes_at(lens, 31, 23) / 2);
    assert(n31 == 0);
    assert forall|s: int| 0 <= s < 256 implies lens[s] == 0 by {
        if lens[s] == 31 {
            lemma_count_some(lens, 31, s, 256);
        }
    }
}

proof fn lemma_count_none(lens: Seq<u8>, l: int, n: int)
    requires
        n <= 256,
        forall|s: int| 0 <= s < 256 ==> #[trigger] lens[s] != l,
    ensures
        huffman::count_len(lens, l, n) == 0,
    decreases n,
{
    if n > 0 {
        lemma_count_none(lens, l, n - 1);
    }
}

/// A symbol of length `l` below `n` is counted after those before it.
proof fn lemma_count_some(lens: Seq<u8>, l: int, s: int, n: int)
    requires
        0 <= s < n,
        lens[s] == l,
    ensures
        huffman::count_len(lens, l, s) + 1 <= huffman::count_len(lens, l, n),
    decreases n,
{
    if s < n - 1 {
        lemma_count_some(lens, l, s, n - 1);
    }
}

/// A table's own facts: limits, lengths of exactly the occurring symbols, completeness.
proof fn lemma_table_facts(c: CodeModel, freqs: Seq<u64>)
    requires
        huffman::is_table_for(c, freqs),
        tree::leaves(freqs, 256).len() >= 2,
        c.max_len <= 31,
    ensures
        limits_ok(c),
        c.length == tree::huffman_lengths(freqs),
        forall|s: int| 0 <= s < 256 ==> (#[trigger] c.length[s] > 0 <==> freqs[s] > 0),
        tree::complete(c.length, c.max_len as int),
        huffman::count_coded(c.length, 256) >= 1,
        !(c.min_len == 31 && c.max_len == 31),
{
    tree::lemma_huffman_lengths(freqs, c.max_len as int);
    let lens = c.length;
    let s = choose|s: int| 0 <= s < 256 && #[trigger] lens[s] == c.min_len;
    assert(lens[s] == c.min_len && c.min_len <= lens[s] <= c.max_len);
    lemma_count_coded_mono(lens, s + 1, 256);
    if c.min_len == 31 && c.max_len == 31 {
        assert forall|s: int| 0 <= s < 256 implies #[trigger] lens[s] == 0 || lens[s] == 31 by {}
        lemma_not_all_31(lens);
    }
}

/// A written table header is read back as the decoder's side of the table, wherever it stands.
/// The length limits take five bits each, so the longest code must fit them.
pub proof fn law_header_roundtrip(c: CodeModel, freqs: Seq<u64>, bits: Seq<bool>, pos: int)
    requires
        huffman::is_table_for(c, freqs),
        c.max_len <= 31,
        bitstream::has_at(bits, pos, huffman::header_bits(c)),
    ensures
        huffman::parse_table(bits, pos) == (
            Some(decoder_model(c)),
            pos + huffman::header_bits(c).len(),
        ),
{
    reveal(huffman::parse_table);
    reveal(huffman::header_bits);
    let minb = bitstream::bits_of(c.min_len as nat, 5);
    let maxb = bitstream::bits_of(c.max_len as nat, 5);
    let n = tree::leaves(freqs, 256).len();
    bitstream::lemma_two_pow_values();
    let rest = huffman::header_bits(c).subrange(10, huffman::header_bits(c).len() as int);
    bitstream::lemma_bits_of_len(c.min_len as nat, 5);
    bitstream::lemma_bits_of_len(c.max_len as nat, 5);
    assert(huffman::header_bits(c) =~= minb + maxb + rest);
    bitstream::lemma_has_at_concat(bits, pos, minb + maxb, rest);
    bitstream::lemma_has_at_concat(bits, pos, minb, maxb);
    if n >= 2 {
        lemma_table_facts(c, freqs);
        lemma_read_back(bits, pos, c.min_len as nat, 5);
        lemma_read_back(bits, pos + 5, c.max_len as nat, 5);
        let count = huffman::count_coded(c.length, 256);
        if count <= 31 {
            let cb = bitstream::bits_of(count, 5);
            let lb = huffman::list_bits(c, 0);
            assert(rest =~= seq![false] + cb + lb);
            bitstream::lemma_has_at_concat(bits, pos + 10, seq![false] + cb, lb);
            bitstream::lemma_has_at_concat(bits, pos + 10, seq![false], cb);
            lemma_read_flag(bits, pos + 10, false);
            lemma_read_back(bits, pos + 11, count, 5);
            lemma_read_list(c, bits, pos + 16, 0, huffman::no_lengths());
        } else {
            let mb = huffman::bitmap_bits(c, 0);
            assert(rest =~= seq![true] + mb);
            bitstream::lemma_has_at_concat(bits, pos + 10, seq![true], mb);
            lemma_read_flag(bits, pos + 10, true);
            lemma_read_bitmap(c, bits, pos + 11, 0, huffman::no_lengths());
        }
    } else if n == 1 {
        let s = c.single_symbol->0;
        lemma_read_back(bits, pos, 0, 5);
        lemma_read_back(bits, pos + 5, 0, 5);
        assert(rest =~= bitstream::bits_of(s as nat, 8));
        lemma_read_back(bits, pos + 10, s as nat, 8);
    } else {
        lemma_read_back(bits, pos, 31, 5);
        lemma_read_back(bits, pos + 5, 31, 5);
    }
}

/// Bit `i` of the low `n` bits, counting from the most significant.
proof fn lemma_bits_of_index(v: nat, n: nat, i: int)
    requires
        0 <= i < n,
    ensures
        bitstream::bits_of(v, n)[i] == ((v / bitstream::two_pow((n - 1 - i) as nat)) % 2 == 1),
    decreases n,
{
    bitstream::lemma_bits_of_len(v / 2, (n - 1) as nat);
    if i < n - 1 {
        lemma_bits_of_index(v / 2, (n - 1) as nat, i);
        let k = (n - 2 - i) as nat;
        bitstream::lemma_two_pow_pos(k);
        vstd::arithmetic::div_mod::lemma_div_denominator(
            v as int,
            2,
            bitstream::two_pow(k) as int,
        );
        assert(bitstream::two_pow((n - 1 - i) as nat) == 2 * bitstream::two_pow(k));
    } else {
        assert(v / 1 == v);
    }
}

/// The `k`-bit prefix of a longer code is below the first code of length `k`.
proof fn lemma_prefix_small(lens: Seq<u8>, max_len: int, l: int, code: nat, k: int)
    requires
        tree::complete(lens, max_len),
        1 <= k < l <= max_len,
        code < tree::nodes_at(lens, max_len, l),
    ensures
        code / bitstream::two_pow((l - k) as nat) < huffman::first_code(lens, max_len, k),
    decreases l - k,
{
    bitstream::lemma_two_pow_pos((l - k) as nat);
    if k == l - 1 {
        bitstream::lemma_two_pow_values();
        assert((l - k) as nat == 1);
        assert(huffman::first_code(lens, max_len, k) == tree::nodes_at(lens, max_len, l) / 2);
        assert(tree::nodes_at(lens, max_len, l) % 2 == 0);
    } else {
        lemma_prefix_small(lens, max_len, l, code, k + 1);
        let p = bitstream::two_pow((l - k - 1) as nat);
        bitstream::lemma_two_pow_pos((l - k - 1) as nat);
        vstd::arithmetic::div_mod::lemma_div_denominator(code as int, p as int, 2);
        assert(p * 2 == bitstream::two_pow((l - k) as nat));
        assert(tree::nodes_at(lens, max_len, k + 1) % 2 == 0);
    }
}

/// There are no more codes and prefixes of length `k` than bit strings.
proof fn lemma_nodes_bound(lens: Seq<u8>, max_len: int, k: int)
    requires
        tree::complete(lens, max_len),
        1 <= k <= max_len,
    ensures
        tree::nodes_at(lens, max_len, k) <= bitstream::two_pow(k as nat),
    decreases k,
{
    assert(tree::nodes_at(lens, max_len, k) % 2 == 0);
    if k == 1 {
        assert(huffman::first_code(lens, max_len, 0) == 1);
        bitstream::lemma_two_pow_values();
    } else {
        lemma_nodes_bound(lens, max_len, k - 1);
    }
}

/// The entry of symbol `s`.
spec fn entry_of(lens: Seq<u8>, max_len: int, s: int) -> (u8, u8, u32) {
    (lens[s], s as u8, huffman::code_of(lens, max_len, s) as u32)
}

proof fn lemma_entries_of_len(lens: Seq<u8>, max_len: int, l: int, n: int)
    requires
        0 <= n <= 256,
        lens.len() == 256,
        1 <= l <= 255,
    ensures
        forall|i: int|
            0 <= i < huffman::entries_of_len(lens, max_len, l, n).len() ==> {
                let e = #[trigger] huffman::entries_of_len(lens, max_len, l, n)[i];
                lens[e.1 as int] == l && e == entry_of(lens, max_len, e.1 as int)
            },
        forall|s: int|
            0 <= s < n && #[trigger] lens[s] == l ==> huffman::entries_of_len(
                lens,
                max_len,
                l,
                n,
            ).contains(entry_of(lens, max_len, s)),
    decreases n,
{
    if n > 0 {
        lemma_entries_of_len(lens, max_len, l, n - 1);
        let rest = huffman::entries_of_len(lens, max_len, l, n - 1);
        let all = huffman::entries_of_len(lens, max_len, l, n);
        if lens[n - 1] == l {
            assert(all[0] == entry_of(lens, max_len, n - 1));
            assert forall|i: int| 0 <= i < all.len() implies {
                let e = #[trigger] all[i];
                lens[e.1 as int] == l && e == entry_of(lens, max_len, e.1 as int)
            } by {
                if i > 0 {
                    assert(all[i] == rest[i - 1]);
                }
            }
            assert forall|s: int| 0 <= s < n && #[trigger] lens[s] == l implies all.contains(
                entry_of(lens, max_len, s),
            ) by {
                if s < n - 1 {
                    let j = choose|j: int|
                        0 <= j < rest.len() && rest[j] == entry_of(lens, max_len, s);
                    assert(all[j + 1] == rest[j]);
                } else {
                    assert(all[0] == entry_of(lens, max_len, s));
                }
            }
        }
    }
}

proof fn lemma_entries_upto(lens: Seq<u8>, max_len: int, l: int)
    requires
        lens.len() == 256,
        0 <= l <= 255,
    ensures
        forall|i: int|
            0 <= i < huffman::entries_upto(lens, max_len, l).len() ==> {
                let e = #[trigger] huffman::entries_upto(lens, max_len, l)[i];
                lens[e.1 as int] > 0 && e == entry_of(lens, max_len, e.1 as int)
            },
        forall|s: int|
            0 <= s < 256 && 0 < #[trigger] lens[s] <= l ==> huffman::entries_upto(
                lens,
                max_len,
                l,
            ).contains(entry_of(lens, max_len, s)),
    decreases l,
{
    if l > 0 {
        lemma_entries_upto(lens, max_len, l - 1);
        lemma_entries_of_len(lens, max_len, l, 256);
        let a = huffman::entries_upto(lens, max_len, l - 1);
        let b = huffman::entries_of_len(lens, max_len, l, 256);
        let all = huffman::entries_upto(lens, max_len, l);
        assert forall|i: int| 0 <= i < all.len() implies {
            let e = #[trigger] all[i];
            lens[e.1 as int] > 0 && e == entry_of(lens, max_len, e.1 as int)
        } by {
            if i < a.len() {
                assert(all[i] == a[i]);
            } else {
                assert(all[i] == b[i - a.len()]);
            }
        }
        assert forall|s: int| 0 <= s < 256 && 0 < #[trigger] lens[s] <= l implies all.contains(
            entry_of(lens, max_len, s),
        ) by {
            if lens[s] < l {
                let j = choose|j: int| 0 <= j < a.len() && a[j] == entry_of(lens, max_len, s);
                assert(all[j] == a[j]);
            } else {
                let j = choose|j: int| 0 <= j < b.len() && b[j] == entry_of(lens, max_len, s);
                assert(all[a.len() + j] == b[j]);
            }
        }
    }
}

proof fn lemma_lookup_none(entries: Seq<(u8, u8, u32)>, i: int, len: int, code: int)
    requires
        0 <= i,
        forall|j: int|
            0 <= j < entries.len() ==> !(#[trigger] entries[j].0 == len && entries[j].2 == code),
    ensures
        huffman::lookup(entries, i, len, code) is None,
    decreases entries.len() - i,
{
    if i < entries.len() {
        lemma_lookup_none(entries, i + 1, len, code);
    }
}

proof fn lemma_lookup_some(
    entries: Seq<(u8, u8, u32)>,
    i: int,
    len: int,
    code: int,
    s: u8,
    at: int,
)
    requires
        0 <= i <= at < entries.len(),
        entries[at].0 == len && entries[at].2 == code,
        forall|j: int|
            0 <= j < entries.len() && #[trigger] entries[j].0 == len && entries[j].2 == code
                ==> entries[j].1 == s,
    ensures
        huffman::lookup(entries, i, len, code) == Some(s),
    decreases entries.len() - i,
{
    if !(entries[i].0 == len && entries[i].2 == code) {
        lemma_lookup_some(entries, i + 1, len, code, s, at);
    }
}

/// The walk through the code of `s`, with its first `m` bits read.
proof fn lemma_walk(c: CodeModel, bits: Seq<bool>, pos: int, s: int, m: int)
    requires
        limits_ok(c),
        tree::complete(c.length, c.max_len as int),
        !c.empty,
        c.single_symbol is None,
        0 <= s < 256,
        c.length[s] > 0,
        0 <= m < c.length[s],
        bitstream::has_at(
            bits,
            pos,
            bitstream::bits_of(
                huffman::code_of(c.length, c.max_len as int, s),
                c.length[s] as nat,
            ),
        ),
    ensures
        huffman::walk_code(
            decoder_model(c),
            bits,
            pos + m,
            (huffman::code_of(c.length, c.max_len as int, s) / bitstream::two_pow(
                (c.length[s] - m) as nat,
            )) as int,
            m,
        ) == (Some(s as u8), pos + c.length[s]),
    decreases c.length[s] - m,
{
    let lens = c.length;
    let max = c.max_len as int;
    let l = lens[s] as int;
    let code = huffman::code_of(lens, max, s);
    let t = decoder_model(c);
    let all = bitstream::bits_of(code, l as nat);
    bitstream::lemma_bits_of_len(code, l as nat);
    assert(bits[pos + m] == bits.subrange(pos, pos + l)[m]);
    lemma_bits_of_index(code, l as nat, m);
    lemma_count_some(lens, l, s, 256);
    huffman::lemma_first_code_bound(lens, max, l);
    huffman::lemma_count_len_bound(lens, l, 256);
    assert(code < tree::nodes_at(lens, max, l));
    let p = bitstream::two_pow((l - m - 1) as nat);
    bitstream::lemma_two_pow_pos((l - m - 1) as nat);
    vstd::arithmetic::div_mod::lemma_div_denominator(code as int, p as int, 2);
    assert(p * 2 == bitstream::two_pow((l - m) as nat));
    vstd::arithmetic::div_mod::lemma_div_nonincreasing(code as int, p as int);
    let before = (code / bitstream::two_pow((l - m) as nat)) as int;
    let after = (code / p) as int;
    assert(before == after / 2);
    assert(after == 2 * before + (if bits[pos + m] {
        1int
    } else {
        0int
    }));
    assert(0 <= after <= code <= 512);
    lemma_entries_upto(lens, max, max);
    let entries = t.entries;
    if m + 1 < l {
        lemma_prefix_small(lens, max, l, code, m + 1);
        assert forall|j: int| 0 <= j < entries.len() implies !(#[trigger] entries[j].0 == m + 1
            && entries[j].2 == after) by {
            let e = entries[j];
            let u = e.1 as int;
            assert(e == entry_of(lens, max, u));
            huffman::lemma_first_code_bound(lens, max, lens[u] as int);
            huffman::lemma_count_len_bound(lens, lens[u] as int, u);
        }
        lemma_lookup_none(entries, 0, m + 1, after);
        lemma_walk(c, bits, pos, s, m + 1);
    } else {
        assert(p == 1);
        assert(after == code);
        assert forall|j: int|
            0 <= j < entries.len() && #[trigger] entries[j].0 == l && entries[j].2 == code implies entries[j].1
            == s as u8 by {
            let e = entries[j];
            let u = e.1 as int;
            assert(e == entry_of(lens, max, u));
            huffman::lemma_first_code_bound(lens, max, lens[u] as int);
            huffman::lemma_count_len_bound(lens, lens[u] as int, u);
            if u < s {
                lemma_count_some(lens, l, u, s);
            } else if s < u {
                lemma_count_some(lens, l, s, u);
            }
        }
        assert(entries.contains(entry_of(lens, max, s)));
        let at = choose|at: int| 0 <= at < entries.len() && entries[at] == entry_of(lens, max, s);
        lemma_lookup_some(entries, 0, l, code as int, s as u8, at);
    }
}

/// A written symbol is decoded as itself, wherever it stands.
pub proof fn law_symbol_roundtrip(
    c: CodeModel,
    freqs: Seq<u64>,
    bits: Seq<bool>,
    pos: int,
    symbol: u8,
)
    requires
        huffman::is_table_for(c, freqs),
        c.max_len <= 31,
        freqs.len() == 256,
        freqs[symbol as int] > 0,
        bitstream::has_at(bits, pos, huffman::symbol_bits(c, symbol)),
    ensures
        huffman::decode_at(decoder_model(c), bits, pos) == (
            Some(symbol),
            pos + huffman::symbol_bits(c, symbol).len(),
        ),
{
    let s = symbol as int;
    tree::lemma_leaves_present(freqs, 256);
    assert(tree::leaves(freqs, 256).len() > 0);
    if tree::leaves(freqs, 256).len() == 1 {
        tree::lemma_leaves_single(freqs, 256);
    } else {
        lemma_table_facts(c, freqs);
        let code = huffman::code_of(c.length, c.max_len as int, s);
        let l = c.length[s] as int;
        assert(c.code[s] == code);
        bitstream::lemma_bits_of_len(code, l as nat);
        lemma_walk(c, bits, pos, s, 0);
        lemma_count_some(c.length, l, s, 256);
        lemma_nodes_bound(c.length, c.max_len as int, l);
        bitstream::lemma_two_pow_pos(l as nat);
        vstd::arithmetic::div_mod::lemma_basic_div(code as int, bitstream::two_pow(l as nat) as int);
    }
}

/// A code without its last `n` bits.
pub open spec fn shortened(code: nat, n: nat) -> nat
    decreases n,
{
    if n == 0 {
        code
    } else {
        shortened(code / 2, (n - 1) as nat)
    }
}

/// Codes of one length are numbered upwards by symbol, without gaps. The first of the longest
/// codes is zero, and shorter codes come behind longer ones: what a longer code has in front is
/// never more than a shorter code.
pub proof fn law_codes_in_order(lens: Seq<u8>, max_len: int, a: int, b: int)
    requires
        0 <= a < 256,
        0 <= b < 256,
        0 < lens[a] <= lens[b] <= max_len,
    ensures
        lens[a] == lens[b] && a < b ==> huffman::code_of(lens, max_len, a) < huffman::code_of(
            lens,
            max_len,
            b,
        ),
        lens[a] == lens[b] && a < b && (forall|s: int| a < s < b ==> #[trigger] lens[s] != lens[a])
            ==> huffman::code_of(lens, max_len, b) == huffman::code_of(lens, max_len, a) + 1,
        lens[b] == max_len && (forall|s: int| 0 <= s < b ==> #[trigger] lens[s] != max_len)
            ==> huffman::code_of(lens, max_len, b) == 0,
        lens[a] < lens[b] ==> shortened(
            huffman::code_of(lens, max_len, b),
            (lens[b] - lens[a]) as nat,
        ) <= huffman::code_of(lens, max_len, a),
{
    let la = lens[a] as int;
    let lb = lens[b] as int;
    if la == lb && a < b {
        lemma_count_between(lens, la, a, b);
    }
    if lb == max_len && (forall|s: int| 0 <= s < b ==> #[trigger] lens[s] != max_len) {
        lemma_count_none_below(lens, lb, b);
    }
    if la < lb {
        lemma_count_upto(lens, lb, b, 256);
        lemma_shortened(lens, max_len, huffman::code_of(lens, max_len, b), lb, (lb - la) as nat);
    }
}

proof fn lemma_count_between(lens: Seq<u8>, l: int, a: int, b: int)
    requires
        0 <= a < b,
        lens[a] == l,
    ensures
        huffman::count_len(lens, l, b) >= huffman::count_len(lens, l, a) + 1,
        (forall|s: int| a < s < b ==> #[trigger] lens[s] != l) ==> huffman::count_len(lens, l, b)
            == huffman::count_len(lens, l, a) + 1,
    decreases b,
{
    if b > a + 1 {
        lemma_count_between(lens, l, a, b - 1);
        if forall|s: int| a < s < b ==> #[trigger] lens[s] != l {
            assert(lens[b - 1] != l);
        }
    }
}

proof fn lemma_count_none_below(lens: Seq<u8>, l: int, n: int)
    requires
        forall|s: int| 0 <= s < n ==> #[trigger] lens[s] != l,
    ensures
        huffman::count_len(lens, l, n) == 0,
    decreases n,
{
    if n > 0 {
        lemma_count_none_below(lens, l, n - 1);
    }
}

proof fn lemma_count_upto(lens: Seq<u8>, l: int, b: int, n: int)
    requires
        0 <= b < n,
        lens[b] == l,
    ensures
        huffman::count_len(lens, l, b) + 1 <= huffman::count_len(lens, l, n),
    decreases n,
{
    if b < n - 1 {
        lemma_count_upto(lens, l, b, n - 1);
    }
}

proof fn lemma_shortened(lens: Seq<u8>, max_len: int, code: nat, l: int, n: nat)
    requires
        n >= 1,
        l <= max_len,
        code <= huffman::first_code(lens, max_len, l) + huffman::count_len(lens, l, 256),
    ensures
        shortened(code, n) <= huffman::first_code(lens, max_len, l - n),
    decreases n,
{
    let up = huffman::first_code(lens, max_len, l - 1);
    assert(up == (huffman::first_code(lens, max_len, l) + huffman::count_len(lens, l, 256)) / 2);
    assert(code / 2 <= up);
    if n == 1 {
        assert(shortened(code / 2, 0) == code / 2);
    } else {
        lemma_shortened(lens, max_len, code / 2, l - 1, (n - 1) as nat);
    }
}

} // verus!
