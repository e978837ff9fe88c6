//! What the character-sequence primitives compute, stated by the properties of their
//! results.

use vstd::prelude::*;

use crate::canonical::{decimal, digit_char};
use crate::imports::join;
use crate::text::{
    decimal_value, digit_value, find_first, is_digit, is_ws, lemma_split_on_nonempty,
    parse_u32_spec, split_on, starts_with, trim, trim_end, trim_start, trimmed_nonempty,
    unsigned_digits,
};

verus! {

proof fn lemma_trim_start_is_skip(s: Seq<char>) -> (lo: int)
    ensures
        0 <= lo <= s.len(),
        trim_start(s) == s.skip(lo),
        forall|i: int| 0 <= i < lo ==> is_ws(#[trigger] s[i]),
        lo < s.len() ==> !is_ws(s[lo]),
    decreases s.len(),
{
    if s.len() > 0 && is_ws(s[0]) {
        let k = lemma_trim_start_is_skip(s.drop_first());
        assert(s.drop_first().skip(k) =~= s.skip(k + 1));
        assert forall|i: int| 0 <= i < k + 1 implies is_ws(#[trigger] s[i]) by {
            if i > 0 {
                assert(s[i] == s.drop_first()[i - 1]);
            }
        }
        if k + 1 < s.len() {
            assert(s[k + 1] == s.drop_first()[k]);
        }
        k + 1
    } else {
        assert(s.skip(0) =~= s);
        0
    }
}

proof fn lemma_trim_end_is_take(s: Seq<char>) -> (hi: int)
    ensures
        0 <= hi <= s.len(),
        trim_end(s) == s.take(hi),
        forall|i: int| hi <= i < s.len() ==> is_ws(#[trigger] s[i]),
        hi > 0 ==> !is_ws(s[hi - 1]),
    decreases s.len(),
{
    if s.len() > 0 && is_ws(s.last()) {
        let k = lemma_trim_end_is_take(s.drop_last());
        assert(s.drop_last().take(k) =~= s.take(k));
        assert forall|i: int| k <= i < s.len() implies is_ws(#[trigger] s[i]) by {
            if i < s.len() - 1 {
                assert(s[i] == s.drop_last()[i]);
            }
        }
        if k > 0 {
            assert(s[k - 1] == s.drop_last()[k - 1]);
        }
        k
    } else {
        assert(s.take(s.len() as int) =~= s);
        s.len() as int
    }
}

/// Trimming keeps the part of a text between its leading and its trailing whitespace: a
/// contiguous part of it, unchanged, outside which there is only whitespace, and which
/// begins and ends with a character that is no whitespace (or is empty).
pub proof fn law_trim_is_inner_part(s: Seq<char>)
    ensures
        exists|lo: int, hi: int|
            {
                &&& 0 <= lo <= hi <= s.len()
                &&& trim(s) == s.subrange(lo, hi)
                &&& forall|i: int| 0 <= i < lo ==> is_ws(#[trigger] s[i])
                &&& forall|i: int| hi <= i < s.len() ==> is_ws(#[trigger] s[i])
                &&& lo < hi ==> !is_ws(s[lo]) && !is_ws(s[hi - 1])
            },
{
    let lo = lemma_trim_start_is_skip(s);
    let t = s.skip(lo);
    let k = lemma_trim_end_is_take(t);
    let hi = lo + k;
    assert(t.take(k) =~= s.subrange(lo, hi));
    assert forall|i: int| hi <= i < s.len() implies is_ws(#[trigger] s[i]) by {
        assert(s[i] == t[i - lo]);
    }
    if lo < hi {
        assert(s[lo] == t[0]);
        assert(s[hi - 1] == t[k - 1]);
        if k == 0 {
            assert(false);
        }
    }
    assert(0 <= lo <= hi <= s.len() && trim(s) == s.subrange(lo, hi));
}

/// Splitting at a separator gives pieces that hold no separator and that, joined with the
/// separator between them, give back the text.
pub proof fn law_split_on_rejoins(s: Seq<char>, sep: char)
    ensures
        join(split_on(s, sep), seq![sep]) == s,
        forall|i: int|
            0 <= i < split_on(s, sep).len() ==> !(#[trigger] split_on(s, sep)[i]).contains(sep),
    decreases s.len(),
{
    if s.len() == 0 {
        assert(split_on(s, sep) =~= seq![Seq::<char>::empty()]);
        assert(s =~= Seq::<char>::empty());
        assert(!Seq::<char>::empty().contains(sep));
    } else {
        let d = s.drop_last();
        let c = s.last();
        law_split_on_rejoins(d, sep);
        lemma_split_on_nonempty(d, sep);
        let r = split_on(d, sep);
        if c == sep {
            let r2 = r.push(Seq::<char>::empty());
            assert(r2.drop_last() =~= r);
            assert(join(r2, seq![sep]) =~= s);
            assert forall|i: int| 0 <= i < r2.len() implies !(#[trigger] r2[i]).contains(sep) by {
                if i < r.len() {
                    assert(r2[i] == r[i]);
                }
            }
        } else {
            let last = r.last().push(c);
            let r2 = r.update(r.len() - 1, last);
            assert(!r[r.len() - 1].contains(sep));
            assert(!last.contains(sep)) by {
                if last.contains(sep) {
                    let j = choose|j: int| 0 <= j < last.len() && last[j] == sep;
                    if j < last.len() - 1 {
                        assert(r.last()[j] == sep);
                    }
                }
            }
            if r.len() == 1 {
                assert(join(r, seq![sep]) == r[0]);
                assert(r2[0] == last);
                assert(r.last() == r[0]);
                assert(last =~= s);
                assert(join(r2, seq![sep]) == r2[0]);
            } else {
                assert(r2.drop_last() =~= r.drop_last());
                assert(join(r, seq![sep]) == join(r.drop_last(), seq![sep]) + seq![sep] + r.last());
                assert(r2.last() == last);
                assert(join(r2, seq![sep]) == join(r2.drop_last(), seq![sep]) + seq![sep]
                    + r2.last());
                assert(d.push(c) =~= s);
                assert(join(r2, seq![sep]) =~= s);
            }
            assert forall|i: int| 0 <= i < r2.len() implies !(#[trigger] r2[i]).contains(sep) by {
                if i < r.len() - 1 {
                    assert(r2[i] == r[i]);
                }
            }
        }
    }
}

/// Whether `p` occurs in `s` at position `k`.
pub open spec fn occurs_at(s: Seq<char>, p: Seq<char>, k: int) -> bool {
    0 <= k && k + p.len() <= s.len() && s.subrange(k, k + p.len()) == p
}

/// `find_first` gives the first position where the pattern occurs, and nothing where it
/// occurs nowhere.
pub proof fn law_find_first_is_first(s: Seq<char>, p: Seq<char>)
    ensures
        find_first(s, p) matches Some(k) ==> occurs_at(s, p, k) && forall|j: int|
            0 <= j < k ==> !#[trigger] occurs_at(s, p, j),
        find_first(s, p) is None ==> forall|j: int| !#[trigger] occurs_at(s, p, j),
    decreases s.len(),
{
    if starts_with(s, p) {
        assert(s.subrange(0, p.len() as int) =~= s.take(p.len() as int));
    } else if s.len() == 0 {
        assert forall|j: int| !#[trigger] occurs_at(s, p, j) by {
            if occurs_at(s, p, j) {
                assert(p.len() == 0);
                assert(s.take(0) =~= p);
            }
        }
    } else {
        let t = s.drop_first();
        law_find_first_is_first(t, p);
        assert(!occurs_at(s, p, 0)) by {
            if occurs_at(s, p, 0) {
                assert(s.take(p.len() as int) =~= s.subrange(0, p.len() as int));
            }
        }
        assert forall|j: int| 1 <= j implies #[trigger] occurs_at(s, p, j) == occurs_at(
            t,
            p,
            j - 1,
        ) by {
            if j + p.len() <= s.len() {
                assert(s.subrange(j, j + p.len()) =~= t.subrange(j - 1, j - 1 + p.len()));
            }
        }
        if let Some(k) = find_first(t, p) {
            assert(occurs_at(t, p, k));
            assert(occurs_at(s, p, k + 1));
            assert forall|j: int| 0 <= j < k + 1 implies !#[trigger] occurs_at(s, p, j) by {
                if j >= 1 {
                    assert(!occurs_at(t, p, j - 1));
                }
            }
        } else {
            assert forall|j: int| !#[trigger] occurs_at(s, p, j) by {
                if j >= 1 {
                    assert(!occurs_at(t, p, j - 1));
                }
            }
        }
    }
}

pub(crate) proof fn lemma_decimal_digits(n: nat)
    ensures
        decimal(n).len() >= 1,
        forall|i: int| 0 <= i < decimal(n).len() ==> is_digit(#[trigger] decimal(n)[i]),
        decimal_value(decimal(n)) == n,
    decreases n,
{
    assert((digit_char(n % 10) as u32) == (n % 10) + 0x30);
    if n < 10 {
        assert(decimal(n).drop_last() =~= Seq::<char>::empty());
        assert(decimal(n).last() == digit_char(n));
        assert(n % 10 == n);
        assert(digit_value(digit_char(n)) == n);
        assert(decimal_value(Seq::<char>::empty()) == 0);
    } else {
        lemma_decimal_digits(n / 10);
        let d = decimal(n / 10);
        assert(decimal(n).drop_last() =~= d);
        assert(decimal(n).last() == digit_char(n % 10));
        assert forall|i: int| 0 <= i < decimal(n).len() implies is_digit(
            #[trigger] decimal(n)[i],
        ) by {
            if i < d.len() {
                assert(decimal(n)[i] == d[i]);
            }
        }
        assert(digit_value(digit_char(n % 10)) == n % 10);
        assert(decimal_value(decimal(n)) == decimal_value(d) * 10 + n % 10);
        let q = n / 10;
        let m = n % 10;
        assert(q * 10 + m == n) by (nonlinear_arith)
            requires
                q == n / 10,
                m == n % 10,
        ;
    }
}

/// Every 32-bit number is read back from its decimal numeral, from it with a leading `+`,
/// and from it with a leading zero.
pub proof fn law_parse_u32_reads_decimal(n: u32)
    ensures
        parse_u32_spec(decimal(n as nat)) == Some(n),
        parse_u32_spec(seq!['+'] + decimal(n as nat)) == Some(n),
        parse_u32_spec(seq!['0'] + decimal(n as nat)) == Some(n),
{
    let d = decimal(n as nat);
    lemma_decimal_digits(n as nat);
    assert(d[0] != '+') by {
        assert(is_digit(d[0]));
    }
    assert(unsigned_digits(d) == d);
    let pd = seq!['+'] + d;
    assert(pd.drop_first() =~= d);
    assert(unsigned_digits(pd) == d);
    let zd = seq!['0'] + d;
    assert(unsigned_digits(zd) == zd);
    assert forall|i: int| 0 <= i < zd.len() implies is_digit(#[trigger] zd[i]) by {
        if i > 0 {
            assert(zd[i] == d[i - 1]);
        }
    }
    lemma_leading_zero_value(d);
}

proof fn lemma_leading_zero_value(d: Seq<char>)
    ensures
        decimal_value(seq!['0'] + d) == decimal_value(d),
    decreases d.len(),
{
    if d.len() == 0 {
        let z = seq!['0'];
        assert(z.drop_last() =~= Seq::<char>::empty());
        assert(seq!['0'] + d =~= z);
        assert(('0' as u32) == 0x30);
        assert(z.last() == '0');
        assert(decimal_value(Seq::<char>::empty()) == 0);
        assert(decimal_value(z) == decimal_value(z.drop_last()) * 10 + digit_value(z.last()));
    } else {
        lemma_leading_zero_value(d.drop_last());
        assert((seq!['0'] + d).drop_last() =~= seq!['0'] + d.drop_last());
        assert((seq!['0'] + d).last() == d.last());
        assert(decimal_value(d) == decimal_value(d.drop_last()) * 10 + digit_value(d.last()));
    }
}

/// Of a sequence of pieces, `trimmed_nonempty` keeps each piece trimmed, in order, and
/// leaves out exactly those that trimming makes empty.
pub proof fn law_trimmed_nonempty_is_filter(ps: Seq<Seq<char>>)
    ensures
        trimmed_nonempty(ps) == ps.map_values(|p: Seq<char>| trim(p)).filter(
            |t: Seq<char>| t.len() > 0,
        ),
    decreases ps.len(),
{
    reveal(Seq::filter);
    let m = ps.map_values(|p: Seq<char>| trim(p));
    if ps.len() == 0 {
        assert(m =~= Seq::<Seq<char>>::empty());
    } else {
        law_trimmed_nonempty_is_filter(ps.drop_last());
        assert(m.drop_last() =~= ps.drop_last().map_values(|p: Seq<char>| trim(p)));
        assert(m.last() == trim(ps.last()));
    }
}

} // verus!
