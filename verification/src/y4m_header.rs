//! The header of a Y4M stream, read back from its fields.
use crate::numbers;
use crate::text;
use crate::y4m;
use crate::y4m::Y4mFields;
use vstd::prelude::*;

verus! {

/// A string without spaces.
pub open spec fn unbroken(w: Seq<char>) -> bool {
    forall|i: int| 0 <= i < w.len() ==> !y4m::is_space(#[trigger] w[i])
}

/// Words with a space before each but the first.
pub open spec fn spaced(all: Seq<Seq<char>>) -> Seq<char>
    decreases all.len(),
{
    if all.len() == 0 {
        Seq::empty()
    } else if all.len() == 1 {
        all[0]
    } else {
        spaced(all.drop_last()) + seq![' '] + all.last()
    }
}

proof fn lemma_word_ends(s: Seq<char>, i: int, end: int)
    requires
        0 <= i <= end <= s.len(),
        forall|j: int| i <= j < end ==> !y4m::is_space(#[trigger] s[j]),
        end < s.len() ==> y4m::is_space(s[end]),
    ensures
        y4m::word_end(s, i) == end,
    decreases end - i,
{
    if i < end {
        lemma_word_ends(s, i + 1, end);
    }
}

/// Where the first `k` words end.
spec fn upto(all: Seq<Seq<char>>, k: int) -> int {
    spaced(all.subrange(0, k)).len() as int
}

proof fn lemma_upto(all: Seq<Seq<char>>, k: int)
    requires
        0 <= k <= all.len(),
    ensures
        upto(all, k) <= spaced(all).len(),
        forall|i: int| 0 <= i < upto(all, k) ==> spaced(all)[i] == spaced(all.subrange(0, k))[i],
        k == all.len() ==> upto(all, k) == spaced(all).len(),
        1 <= k < all.len() ==> upto(all, k) < spaced(all).len() && spaced(all)[upto(all, k)] == ' ',
    decreases all.len(),
{
    if k == all.len() {
        assert(all.subrange(0, k) =~= all);
    } else {
        let less = all.drop_last();
        lemma_upto(less, k);
        assert(less.subrange(0, k) =~= all.subrange(0, k));
        if all.len() == 1 {
            assert(all.subrange(0, 0) =~= Seq::<Seq<char>>::empty());
        } else if k == less.len() {
            assert(less.subrange(0, k) =~= less);
        }
    }
}

/// The words of a spaced line from the start of one of them on.
proof fn lemma_words_from(all: Seq<Seq<char>>, k: int)
    requires
        0 <= k < all.len(),
        forall|i: int| 0 <= i < all.len() ==> unbroken(#[trigger] all[i]) && all[i].len() > 0,
    ensures
        y4m::words(
            spaced(all),
            if k == 0 {
                0
            } else {
                upto(all, k) + 1
            },
        ) == all.subrange(k, all.len() as int),
    decreases all.len() - k,
{
    let s = spaced(all);
    let word = all[k];
    let start = if k == 0 {
        0
    } else {
        upto(all, k) + 1
    };
    let end = upto(all, k + 1);
    lemma_upto(all, k);
    lemma_upto(all, k + 1);
    let part = all.subrange(0, k + 1);
    assert(part.last() == word);
    assert(part.drop_last() =~= all.subrange(0, k));
    if k == 0 {
        assert(part =~= seq![word]);
        assert(all.subrange(0, 0) =~= Seq::<Seq<char>>::empty());
    }
    assert(end == start + word.len());
    assert forall|j: int| start <= j < end implies s[j] == word[j - start] by {
        assert(s[j] == spaced(part)[j]);
    }
    assert(unbroken(word));
    assert forall|j: int| start <= j < end implies !y4m::is_space(#[trigger] s[j]) by {
        assert(s[j] == word[j - start]);
    }
    lemma_word_ends(s, start, end);
    assert(s.subrange(start, end) =~= word);
    assert(s[start] == word[0]);
    let rest = all.subrange(k + 1, all.len() as int);
    if k + 1 < all.len() {
        lemma_words_from(all, k + 1);
        assert(s[end] == ' ');
        assert(y4m::words(s, end) == y4m::words(s, end + 1));
    } else {
        assert(rest =~= Seq::<Seq<char>>::empty());
        assert(y4m::words(s, end) =~= Seq::<Seq<char>>::empty());
    }
    assert(seq![word] + rest =~= all.subrange(k, all.len() as int));
}

/// The words of a line are what stands between its spaces.
pub proof fn law_words_of_line(all: Seq<Seq<char>>)
    requires
        all.len() > 0,
        forall|i: int| 0 <= i < all.len() ==> unbroken(#[trigger] all[i]) && all[i].len() > 0,
    ensures
        y4m::words(spaced(all), 0) == all,
{
    lemma_words_from(all, 0);
    assert(all.subrange(0, all.len() as int) =~= all);
}

proof fn lemma_digits_only(n: nat)
    ensures
        forall|i: int|
            0 <= i < text::decimal(n).len() ==> '0' <= #[trigger] text::decimal(n)[i]
                && text::decimal(n)[i] <= '9',
        text::decimal(n).len() > 0,
    decreases n,
{
    let s = text::decimal(n);
    if n >= 10 {
        let t = text::decimal(n / 10);
        lemma_digits_only(n / 10);
        assert forall|i: int| 0 <= i < s.len() implies '0' <= #[trigger] s[i] && s[i] <= '9' by {
            if i < t.len() {
                assert(s[i] == t[i]);
            } else {
                assert(s[i] as int == 48 + n % 10);
            }
        }
    } else {
        assert(s[0] as int == 48 + n);
    }
}

/// The words of a header: the magic, the width, the height, the rate and the colours.
pub open spec fn header_words(width: nat, height: nat, num: nat, den: nat, ten: bool) -> Seq<
    Seq<char>,
> {
    seq![
        "YUV4MPEG2"@,
        seq!['W'] + text::decimal(width),
        seq!['H'] + text::decimal(height),
        seq!['F'] + text::decimal(num) + seq![':'] + text::decimal(den),
        seq!['C'] + (if ten {
            "420p10"@
        } else {
            "420p8"@
        }),
    ]
}

proof fn lemma_rate_read(num: u32, den: u32)
    ensures
        y4m::rate_field(text::decimal(num as nat) + seq![':'] + text::decimal(den as nat)) == Ok::<
            (u32, u32),
            Seq<char>,
        >((num, den)),
{
    let a = text::decimal(num as nat);
    let b = text::decimal(den as nat);
    let v = a + seq![':'] + b;
    lemma_digits_only(num as nat);
    lemma_first_colon(v, 0, a.len() as int);
    assert(v.subrange(0, a.len() as int) =~= a);
    assert(v.subrange(a.len() as int + 1, v.len() as int) =~= b);
    numbers::law_decimal_read_back(num as nat);
    numbers::law_decimal_read_back(den as nat);
}

proof fn lemma_first_colon(t: Seq<char>, i: int, at: int)
    requires
        0 <= i <= at < t.len(),
        t[at] == ':',
        forall|j: int| 0 <= j < at ==> #[trigger] t[j] != ':',
    ensures
        y4m::colon(t, i) == Some(at),
    decreases at - i,
{
    if i < at {
        lemma_first_colon(t, i + 1, at);
    }
}

/// A header is read back into the fields that it was made of. A denominator of 0 counts as 1.
pub proof fn law_header_read(width: u32, height: u32, num: u32, den: u32, ten: bool, depth: u8)
    requires
        width > 0,
        height > 0,
        num > 0,
        depth == 8 || depth == 10,
    ensures
        y4m::header(
            spaced(header_words(width as nat, height as nat, num as nat, den as nat, ten)),
            depth,
        ) == Ok::<Y4mFields, Seq<char>>(
            Y4mFields {
                width: width as usize,
                height: height as usize,
                fps_num: num,
                fps_den: if den == 0 {
                    1
                } else {
                    den
                },
                ten,
            },
        ),
{
    let all = header_words(width as nat, height as nat, num as nat, den as nat, ten);
    lemma_header_words(width as nat, height as nat, num as nat, den as nat, ten);
    law_words_of_line(all);
    lemma_rate_read(num, den);
    numbers::law_decimal_read_back(width as nat);
    numbers::law_decimal_read_back(height as nat);
    let f0 = y4m::no_fields();
    let w = all[1];
    let h = all[2];
    let r = all[3];
    let c = all[4];
    reveal_strlit("YUV4MPEG2");
    reveal_strlit("420jpeg");
    reveal_strlit("420p8");
    reveal_strlit("420");
    reveal_strlit("420p10");
    assert("YUV4MPEG2"@[0] == 'Y');
    assert("420jpeg"@.len() == 7 && "420p8"@.len() == 5 && "420"@.len() == 3 && "420p10"@.len()
        == 6);
    assert(w[0] == 'W' && h[0] == 'H' && r[0] == 'F' && c[0] == 'C');
    assert(w.subrange(1, w.len() as int) =~= text::decimal(width as nat));
    assert(h.subrange(1, h.len() as int) =~= text::decimal(height as nat));
    assert(r.subrange(1, r.len() as int) =~= text::decimal(num as nat) + seq![':'] + text::decimal(
        den as nat,
    ));
    assert(c.subrange(1, c.len() as int) =~= (if ten {
        "420p10"@
    } else {
        "420p8"@
    }));
    let f1 = Y4mFields { width: width as usize, ..f0 };
    let f2 = Y4mFields { height: height as usize, ..f1 };
    let f3 = Y4mFields { fps_num: num, fps_den: den, ..f2 };
    let f4 = Y4mFields { ten, ..f3 };
    assert(y4m::field_step(f0, all[0]) == Ok::<Y4mFields, Seq<char>>(f0));
    assert(y4m::field_step(f0, w) == Ok::<Y4mFields, Seq<char>>(f1));
    assert(y4m::field_step(f1, h) == Ok::<Y4mFields, Seq<char>>(f2));
    assert(y4m::field_step(f2, r) == Ok::<Y4mFields, Seq<char>>(f3));
    assert(y4m::field_step(f3, c) == Ok::<Y4mFields, Seq<char>>(f4));
    assert(y4m::fields_after(f4, all, 5) == Ok::<Y4mFields, Seq<char>>(f4));
    assert(y4m::fields_after(f3, all, 4) == Ok::<Y4mFields, Seq<char>>(f4));
    assert(y4m::fields_after(f2, all, 3) == Ok::<Y4mFields, Seq<char>>(f4));
    assert(y4m::fields_after(f1, all, 2) == Ok::<Y4mFields, Seq<char>>(f4));
    assert(y4m::fields_after(f0, all, 1) == Ok::<Y4mFields, Seq<char>>(f4));
    assert(y4m::fields_after(f0, all, 0) == Ok::<Y4mFields, Seq<char>>(f4));
}

proof fn lemma_header_words(width: nat, height: nat, num: nat, den: nat, ten: bool)
    ensures
        forall|i: int|
            0 <= i < 5 ==> unbroken(
                #[trigger] header_words(width, height, num, den, ten)[i],
            ) && header_words(width, height, num, den, ten)[i].len() > 0,
        header_words(width, height, num, den, ten).len() == 5,
{
    let all = header_words(width, height, num, den, ten);
    lemma_digits_only(width);
    lemma_digits_only(height);
    lemma_digits_only(num);
    lemma_digits_only(den);
    reveal_strlit("YUV4MPEG2");
    reveal_strlit("420p8");
    reveal_strlit("420p10");
    let c = all[4];
    assert forall|j: int| 0 <= j < all[0].len() implies !y4m::is_space(#[trigger] all[0][j]) by {
        let m = "YUV4MPEG2"@;
        assert(m[0] == 'Y' && m[1] == 'U' && m[2] == 'V' && m[3] == '4' && m[4] == 'M' && m[5]
            == 'P' && m[6] == 'E' && m[7] == 'G' && m[8] == '2');
    }
    assert forall|j: int| 0 <= j < all[1].len() implies !y4m::is_space(#[trigger] all[1][j]) by {
        if j > 0 {
            assert(all[1][j] == text::decimal(width)[j - 1]);
        }
    }
    assert forall|j: int| 0 <= j < all[2].len() implies !y4m::is_space(#[trigger] all[2][j]) by {
        if j > 0 {
            assert(all[2][j] == text::decimal(height)[j - 1]);
        }
    }
    assert forall|j: int| 0 <= j < all[3].len() implies !y4m::is_space(#[trigger] all[3][j]) by {
        let n = text::decimal(num).len() as int;
        if 0 < j <= n {
            assert(all[3][j] == text::decimal(num)[j - 1]);
        } else if j > n + 1 {
            assert(all[3][j] == text::decimal(den)[j - n - 2]);
        }
    }
    assert forall|j: int| 0 <= j < c.len() implies !y4m::is_space(#[trigger] c[j]) by {
        if j > 0 {
            if ten {
                let t = "420p10"@;
                assert(t[0] == '4' && t[1] == '2' && t[2] == '0' && t[3] == 'p' && t[4] == '1'
                    && t[5] == '0');
                assert(c[j] == t[j - 1]);
            } else {
                let t = "420p8"@;
                assert(t[0] == '4' && t[1] == '2' && t[2] == '0' && t[3] == 'p' && t[4] == '8');
                assert(c[j] == t[j - 1]);
            }
        }
    }
    assert forall|i: int| 0 <= i < 5 implies unbroken(#[trigger] all[i]) && all[i].len() > 0 by {
        assert(i == 0 || i == 1 || i == 2 || i == 3 || i == 4);
    }
}

} // verus!
