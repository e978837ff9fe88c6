//! Character-sequence primitives that the parser is built from.

use vstd::prelude::*;

verus! {

broadcast use vstd::string::group_string_axioms;

/// Appends one character to a `String`.
/// Trusted: `String::push`, which appends the character at the end.
#[verifier::external_body]
pub(crate) fn push_char(s: &mut String, c: char)
    ensures
        final(s)@ == old(s)@.push(c),
{
    s.push(c);
}

/// The characters of a string slice, in order.
pub fn str_to_chars(s: &str) -> (res: Vec<char>)
    ensures
        res@ == s@,
{
    let mut it = s.chars();
    let mut res: Vec<char> = Vec::new();
    loop
        invariant
            vstd::std_specs::iter::IteratorSpec::obeys_prophetic_iter_laws(&it),
            vstd::std_specs::iter::IteratorSpec::decrease(&it) is Some,
            res@ + vstd::std_specs::iter::IteratorSpec::remaining(&it) == s@,
        decreases vstd::std_specs::iter::IteratorSpec::decrease(&it)->0,
    {
        match it.next() {
            Some(c) => {
                res.push(c);
                assert(res@ + vstd::std_specs::iter::IteratorSpec::remaining(&it) =~= s@);
            },
            None => {
                assert(res@ =~= s@);
                return res;
            },
        }
    }
}


/// The characters that `char::is_whitespace` accepts: the Unicode `White_Space` property.
pub open spec fn is_ws(c: char) -> bool {
    let u = c as u32;
    ||| 0x09 <= u <= 0x0d
    ||| u == 0x20
    ||| u == 0x85
    ||| u == 0xa0
    ||| u == 0x1680
    ||| 0x2000 <= u <= 0x200a
    ||| u == 0x2028
    ||| u == 0x2029
    ||| u == 0x202f
    ||| u == 0x205f
    ||| u == 0x3000
}

/// Whether `c` is a whitespace character.
pub fn is_whitespace(c: char) -> (res: bool)
    ensures
        res == is_ws(c),
{
    let u = c as u32;
    (0x09 <= u && u <= 0x0d) || u == 0x20 || u == 0x85 || u == 0xa0 || u == 0x1680 || (0x2000
        <= u && u <= 0x200a) || u == 0x2028 || u == 0x2029 || u == 0x202f || u == 0x205f || u
        == 0x3000
}

/// `s` without its leading whitespace.
pub open spec fn trim_start(s: Seq<char>) -> Seq<char>
    decreases s.len(),
{
    if s.len() > 0 && is_ws(s[0]) {
        trim_start(s.drop_first())
    } else {
        s
    }
}

/// `s` without its trailing whitespace.
pub open spec fn trim_end(s: Seq<char>) -> Seq<char>
    decreases s.len(),
{
    if s.len() > 0 && is_ws(s.last()) {
        trim_end(s.drop_last())
    } else {
        s
    }
}

/// `s` without leading and trailing whitespace, as `str::trim` gives it.
pub open spec fn trim(s: Seq<char>) -> Seq<char> {
    trim_end(trim_start(s))
}

proof fn lemma_trim_start_skip(s: Seq<char>, k: int)
    requires
        0 <= k <= s.len(),
        forall|i: int| 0 <= i < k ==> is_ws(#[trigger] s[i]),
        k == s.len() || !is_ws(s[k]),
    ensures
        trim_start(s) == s.skip(k),
    decreases k,
{
    if k == 0 {
        assert(s.skip(0) =~= s);
    } else {
        let t = s.drop_first();
        assert forall|i: int| 0 <= i < k - 1 implies is_ws(#[trigger] t[i]) by {
            assert(t[i] == s[i + 1]);
        }
        if k - 1 < t.len() {
            assert(t[k - 1] == s[k]);
        }
        lemma_trim_start_skip(t, k - 1);
        assert(t.skip(k - 1) =~= s.skip(k));
    }
}

proof fn lemma_trim_end_take(s: Seq<char>, k: int)
    requires
        0 <= k <= s.len(),
        forall|i: int| k <= i < s.len() ==> is_ws(#[trigger] s[i]),
        k == 0 || !is_ws(s[k - 1]),
    ensures
        trim_end(s) == s.take(k),
    decreases s.len() - k,
{
    if k == s.len() {
        assert(s.take(k) =~= s);
    } else {
        let t = s.drop_last();
        assert forall|i: int| k <= i < t.len() implies is_ws(#[trigger] t[i]) by {
            assert(t[i] == s[i]);
        }
        if k > 0 {
            assert(t[k - 1] == s[k - 1]);
        }
        lemma_trim_end_take(t, k);
        assert(t.take(k) =~= s.take(k));
    }
}

/// The characters of `v` from `lo` up to `hi`.
pub fn copy_range(v: &Vec<char>, lo: usize, hi: usize) -> (res: Vec<char>)
    requires
        lo <= hi <= v.len(),
    ensures
        res@ == v@.subrange(lo as int, hi as int),
{
    let mut res: Vec<char> = Vec::new();
    let mut i = lo;
    while i < hi
        invariant
            lo <= i <= hi <= v.len(),
            res@ == v@.subrange(lo as int, i as int),
        decreases hi - i,
    {
        res.push(v[i]);
        i = i + 1;
        assert(res@ =~= v@.subrange(lo as int, i as int));
    }
    res
}

/// The bounds of `trim(v)` inside `v`.
pub fn trim_bounds(v: &Vec<char>) -> (res: (usize, usize))
    ensures
        res.0 <= res.1 <= v.len(),
        v@.subrange(res.0 as int, res.1 as int) == trim(v@),
{
    let n = v.len();
    let mut lo: usize = 0;
    while lo < n && is_whitespace(v[lo])
        invariant
            lo <= n == v.len(),
            forall|i: int| 0 <= i < lo ==> is_ws(#[trigger] v@[i]),
        decreases n - lo,
    {
        lo = lo + 1;
    }
    let mut hi: usize = n;
    while hi > lo && is_whitespace(v[hi - 1])
        invariant
            lo <= hi <= n == v.len(),
            forall|i: int| hi <= i < n ==> is_ws(#[trigger] v@[i]),
        decreases hi - lo,
    {
        hi = hi - 1;
    }
    proof {
        lemma_trim_start_skip(v@, lo as int);
        let t = v@.skip(lo as int);
        let k = hi - lo;
        assert forall|i: int| k <= i < t.len() implies is_ws(#[trigger] t[i]) by {
            assert(t[i] == v@[i + lo]);
        }
        if k > 0 {
            assert(t[k - 1] == v@[hi - 1]);
        } else if lo < n {
            assert(hi == lo);
            assert(!is_ws(v@[lo as int]));
            assert(false);
        }
        lemma_trim_end_take(t, k as int);
        assert(t.take(k as int) =~= v@.subrange(lo as int, hi as int));
    }
    (lo, hi)
}

/// `trim(v)` as a new vector.
pub fn trim_chars(v: &Vec<char>) -> (res: Vec<char>)
    ensures
        res@ == trim(v@),
{
    let (lo, hi) = trim_bounds(v);
    copy_range(v, lo, hi)
}

/// Whether `s` begins with `p`.
pub open spec fn starts_with(s: Seq<char>, p: Seq<char>) -> bool {
    p.len() <= s.len() && s.take(p.len() as int) == p
}

/// Whether the characters of `v` from position `at` on begin with `p`.
pub fn has_prefix_at(v: &Vec<char>, at: usize, p: &Vec<char>) -> (res: bool)
    requires
        at <= v.len(),
    ensures
        res == starts_with(v@.skip(at as int), p@),
{
    let n = v.len();
    let m = p.len();
    if m > n - at {
        return false;
    }
    let mut j: usize = 0;
    while j < m
        invariant
            m == p.len(),
            at + m <= n == v.len(),
            j <= m,
            forall|k: int| 0 <= k < j ==> v@[at + k] == p@[k],
        decreases m - j,
    {
        if v[at + j] != p[j] {
            proof {
                let t = v@.skip(at as int);
                assert(t.take(m as int)[j as int] == v@[at + j]);
            }
            return false;
        }
        j = j + 1;
    }
    assert(v@.skip(at as int).take(m as int) =~= p@);
    true
}

/// Whether `v` begins with the text of `p`.
pub fn has_prefix(v: &Vec<char>, p: &str) -> (res: bool)
    ensures
        res == starts_with(v@, p@),
{
    let pc = str_to_chars(p);
    assert(v@.skip(0) =~= v@);
    has_prefix_at(v, 0, &pc)
}

/// `s` with every occurrence of `p`, taken from the left and without overlap, removed:
/// what `str::replace(p, "")` gives.
pub open spec fn remove_all(s: Seq<char>, p: Seq<char>) -> Seq<char>
    recommends
        p.len() > 0,
    decreases s.len(),
{
    if s.len() == 0 {
        s
    } else if p.len() > 0 && starts_with(s, p) {
        remove_all(s.skip(p.len() as int), p)
    } else {
        seq![s[0]] + remove_all(s.drop_first(), p)
    }
}

/// `remove_all(v, p)` as a new vector.
pub fn remove_all_chars(v: &Vec<char>, p: &Vec<char>) -> (res: Vec<char>)
    requires
        p.len() > 0,
    ensures
        res@ == remove_all(v@, p@),
{
    let n = v.len();
    let mut res: Vec<char> = Vec::new();
    let mut i: usize = 0;
    assert(v@.skip(0) =~= v@);
    while i < n
        invariant
            n == v.len(),
            p.len() > 0,
            i <= n,
            res@ + remove_all(v@.skip(i as int), p@) == remove_all(v@, p@),
        decreases n - i,
    {
        let ghost t = v@.skip(i as int);
        if has_prefix_at(v, i, p) {
            assert(t.skip(p@.len() as int) =~= v@.skip(i + p.len()));
            i = i + p.len();
        } else {
            assert(t.drop_first() =~= v@.skip(i + 1));
            assert(t[0] == v@[i as int]);
            let ghost before = res@;
            res.push(v[i]);
            assert(before + remove_all(t, p@) =~= res@ + remove_all(v@.skip(i + 1), p@));
            i = i + 1;
        }
    }
    assert(v@.skip(n as int) =~= Seq::<char>::empty());
    assert(res@ + Seq::<char>::empty() =~= res@);
    res
}

/// `remove_all(v, p)` for the text of `p`.
pub fn remove_text(v: &Vec<char>, p: &str) -> (res: Vec<char>)
    requires
        p@.len() > 0,
    ensures
        res@ == remove_all(v@, p@),
{
    let pc = str_to_chars(p);
    remove_all_chars(v, &pc)
}


/// Appends the characters of `v` to `s`.
pub fn push_chars(s: &mut String, v: &Vec<char>)
    ensures
        final(s)@ == old(s)@ + v@,
{
    let mut i: usize = 0;
    assert(old(s)@ + v@.take(0) =~= old(s)@);
    while i < v.len()
        invariant
            i <= v.len(),
            s@ == old(s)@ + v@.take(i as int),
        decreases v.len() - i,
    {
        push_char(s, v[i]);
        i = i + 1;
        assert(s@ =~= old(s)@ + v@.take(i as int));
    }
    assert(v@.take(v.len() as int) =~= v@);
}

/// A `String` holding the characters of `v`.
pub fn string_from_chars(v: &Vec<char>) -> (res: String)
    ensures
        res@ == v@,
{
    let mut res = String::new();
    push_chars(&mut res, v);
    assert(Seq::<char>::empty() + v@ =~= v@);
    res
}

/// The views of a sequence of character vectors.
pub open spec fn char_views(v: Seq<Vec<char>>) -> Seq<Seq<char>> {
    Seq::new(v.len(), |i: int| v[i]@)
}

/// The views of a sequence of strings.
pub open spec fn string_views(v: Seq<String>) -> Seq<Seq<char>> {
    Seq::new(v.len(), |i: int| v[i]@)
}

/// The pieces of `s` between the occurrences of `sep`, as `str::split` gives them:
/// one more piece than there are separators, empty pieces included.
pub open spec fn split_on(s: Seq<char>, sep: char) -> Seq<Seq<char>>
    decreases s.len(),
{
    if s.len() == 0 {
        seq![Seq::<char>::empty()]
    } else {
        let r = split_on(s.drop_last(), sep);
        if s.last() == sep {
            r.push(Seq::<char>::empty())
        } else {
            r.update(r.len() - 1, r.last().push(s.last()))
        }
    }
}

/// The pieces, each trimmed, with the empty ones left out.
pub open spec fn trimmed_nonempty(pieces: Seq<Seq<char>>) -> Seq<Seq<char>>
    decreases pieces.len(),
{
    if pieces.len() == 0 {
        Seq::<Seq<char>>::empty()
    } else {
        let r = trimmed_nonempty(pieces.drop_last());
        let t = trim(pieces.last());
        if t.len() > 0 {
            r.push(t)
        } else {
            r
        }
    }
}

/// Splitting gives at least one piece.
pub proof fn lemma_split_on_nonempty(s: Seq<char>, sep: char)
    ensures
        split_on(s, sep).len() >= 1,
    decreases s.len(),
{
    if s.len() > 0 {
        lemma_split_on_nonempty(s.drop_last(), sep);
    }
}

/// The pieces of `v` between the occurrences of `sep`, each trimmed, the empty ones left out.
pub fn split_trimmed(v: &Vec<char>, sep: char) -> (res: Vec<Vec<char>>)
    ensures
        char_views(res@) == trimmed_nonempty(split_on(v@, sep)),
{
    let n = v.len();
    let mut res: Vec<Vec<char>> = Vec::new();
    let mut start: usize = 0;
    let mut i: usize = 0;
    assert(v@.take(0) =~= Seq::<char>::empty());
    assert(split_on(v@.take(0), sep).drop_last() =~= Seq::<Seq<char>>::empty());
    assert(char_views(res@) =~= Seq::<Seq<char>>::empty());
    while i < n
        invariant
            n == v.len(),
            start <= i <= n,
            split_on(v@.take(i as int), sep).len() >= 1,
            split_on(v@.take(i as int), sep).last() == v@.subrange(start as int, i as int),
            char_views(res@) == trimmed_nonempty(split_on(v@.take(i as int), sep).drop_last()),
        decreases n - i,
    {
        let ghost prev = split_on(v@.take(i as int), sep);
        assert(v@.take(i + 1).drop_last() =~= v@.take(i as int));
        assert(v@.take(i + 1).last() == v@[i as int]);
        if v[i] == sep {
            let piece = copy_range(v, start, i);
            let t = trim_chars(&piece);
            proof {
                assert(split_on(v@.take(i + 1), sep).drop_last() =~= prev);
                assert(prev =~= prev.drop_last().push(prev.last()));
            }
            if t.len() > 0 {
                res.push(t);
            }
            assert(char_views(res@) =~= trimmed_nonempty(prev));
            start = i + 1;
            assert(v@.subrange(start as int, (i + 1) as int) =~= Seq::<char>::empty());
        } else {
            proof {
                let cur = split_on(v@.take(i + 1), sep);
                assert(cur.drop_last() =~= prev.drop_last());
                assert(v@.subrange(start as int, (i + 1) as int) =~= v@.subrange(
                    start as int,
                    i as int,
                ).push(v@[i as int]));
            }
        }
        i = i + 1;
    }
    assert(v@.take(n as int) =~= v@);
    let ghost all = split_on(v@, sep);
    let piece = copy_range(v, start, n);
    let t = trim_chars(&piece);
    assert(all =~= all.drop_last().push(all.last()));
    if t.len() > 0 {
        res.push(t);
    }
    assert(char_views(res@) =~= trimmed_nonempty(all));
    res
}

/// Strings holding the character vectors of `v`.
pub fn strings_from_chars(v: &Vec<Vec<char>>) -> (res: Vec<String>)
    ensures
        string_views(res@) == char_views(v@),
{
    let mut res: Vec<String> = Vec::new();
    let mut i: usize = 0;
    while i < v.len()
        invariant
            i <= v.len(),
            res.len() == i,
            string_views(res@) == char_views(v@).take(i as int),
        decreases v.len() - i,
    {
        let s = string_from_chars(&v[i]);
        assert(s@ == v@[i as int]@);
        let ghost old_views = string_views(res@);
        res.push(s);
        i = i + 1;
        assert forall|k: int| 0 <= k < i implies #[trigger] string_views(res@)[k] == char_views(
            v@,
        ).take(i as int)[k] by {
            if k < i - 1 {
                assert(string_views(res@)[k] == old_views[k]);
            }
        }
        assert(string_views(res@) =~= char_views(v@).take(i as int));
    }
    assert(char_views(v@).take(v.len() as int) =~= char_views(v@));
    res
}

/// The position of the first occurrence of `p` in `s`, if there is one.
pub open spec fn find_first(s: Seq<char>, p: Seq<char>) -> Option<int>
    decreases s.len(),
{
    if starts_with(s, p) {
        Some(0)
    } else if s.len() == 0 {
        None
    } else {
        match find_first(s.drop_first(), p) {
            Some(k) => Some(k + 1),
            None => None,
        }
    }
}

/// A position that `find_first` gives is one where `p` occurs in `s`.
pub proof fn lemma_find_first_bounds(s: Seq<char>, p: Seq<char>)
    ensures
        find_first(s, p) matches Some(k) ==> 0 <= k && k + p.len() <= s.len() && s.subrange(
            k,
            k + p.len(),
        ) == p,
    decreases s.len(),
{
    if starts_with(s, p) {
        assert(s.subrange(0, p.len() as int) =~= s.take(p.len() as int));
    } else if s.len() > 0 {
        lemma_find_first_bounds(s.drop_first(), p);
        if let Some(k) = find_first(s.drop_first(), p) {
            assert(s.subrange(k + 1, k + 1 + p.len()) =~= s.drop_first().subrange(k, k + p.len()));
        }
    }
}

/// `find_first(v, p)` computed on vectors.
pub fn find_chars(v: &Vec<char>, p: &Vec<char>) -> (res: Option<usize>)
    ensures
        match res {
            Some(k) => find_first(v@, p@) == Some(k as int),
            None => find_first(v@, p@) is None,
        },
{
    let n = v.len();
    let mut i: usize = 0;
    assert(v@.skip(0) =~= v@);
    loop
        invariant
            n == v.len(),
            i <= n,
            find_first(v@, p@) == (match find_first(v@.skip(i as int), p@) {
                Some(k) => Some(k + i),
                None => None,
            }),
        decreases n - i,
    {
        if has_prefix_at(v, i, p) {
            return Some(i);
        }
        if i == n {
            assert(v@.skip(i as int).len() == 0);
            return None;
        }
        assert(v@.skip(i as int).drop_first() =~= v@.skip(i + 1));
        i = i + 1;
    }
}

/// Whether `c` is one of the ASCII digits.
pub open spec fn is_digit(c: char) -> bool {
    0x30 <= (c as u32) <= 0x39
}

/// The number that the ASCII digit `c` stands for.
pub open spec fn digit_value(c: char) -> nat {
    ((c as u32) - 0x30) as nat
}

/// The number that a sequence of decimal digits stands for.
pub open spec fn decimal_value(s: Seq<char>) -> nat
    decreases s.len(),
{
    if s.len() == 0 {
        0
    } else {
        decimal_value(s.drop_last()) * 10 + digit_value(s.last())
    }
}

/// `s` without one leading `+`.
pub open spec fn unsigned_digits(s: Seq<char>) -> Seq<char> {
    if s.len() > 0 && s[0] == '+' {
        s.drop_first()
    } else {
        s
    }
}

/// What `str::parse::<u32>` gives: an optional `+`, then at least one decimal digit and
/// nothing else, for a value that fits in 32 bits.
pub open spec fn parse_u32_spec(s: Seq<char>) -> Option<u32> {
    let d = unsigned_digits(s);
    if d.len() > 0 && (forall|i: int| 0 <= i < d.len() ==> is_digit(#[trigger] d[i]))
        && decimal_value(d) <= u32::MAX {
        Some(decimal_value(d) as u32)
    } else {
        None
    }
}

/// `parse_u32_spec(v)` computed.
pub fn parse_u32_chars(v: &Vec<char>) -> (res: Option<u32>)
    ensures
        res == parse_u32_spec(v@),
{
    let n = v.len();
    let start: usize = if n > 0 && v[0] == '+' {
        1
    } else {
        0
    };
    let ghost d = unsigned_digits(v@);
    assert(d =~= v@.skip(start as int));
    if start == n {
        assert(d.len() == 0);
        return None;
    }
    let mut val: u32 = 0;
    let mut overflow = false;
    let mut i: usize = start;
    assert(d.take(0) =~= Seq::<char>::empty());
    while i < n
        invariant
            n == v.len(),
            start <= i <= n,
            d == v@.skip(start as int),
            d == unsigned_digits(v@),
            forall|k: int| 0 <= k < i - start ==> is_digit(#[trigger] d[k]),
            !overflow ==> val == decimal_value(d.take(i - start)),
            overflow ==> decimal_value(d.take(i - start)) > u32::MAX,
        decreases n - i,
    {
        let c = v[i];
        let u = c as u32;
        if u < 0x30 || u > 0x39 {
            assert(d[i - start] == c);
            assert(!is_digit(d[i - start]));
            assert(!(forall|k: int| 0 <= k < d.len() ==> is_digit(#[trigger] d[k])));
            return None;
        }
        let dv = u - 0x30;
        proof {
            assert(d[i - start] == c);
            assert(d.take(i - start + 1).drop_last() =~= d.take(i - start));
            assert(d.take(i - start + 1).last() == c);
        }
        if !overflow {
            if val > 429496729 || (val == 429496729 && dv > 5) {
                overflow = true;
            } else {
                val = val * 10 + dv;
            }
        }
        i = i + 1;
    }
    assert(d.take(n - start) =~= d);
    if overflow {
        None
    } else {
        Some(val)
    }
}

} // verus!
