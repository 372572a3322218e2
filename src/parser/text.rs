//! Byte-level text helpers: trimming, lines, whitespace-separated words, and
//! decimal integers.
use vstd::prelude::*;

use crate::parser::split_on;

verus! {

/// ASCII whitespace: space, tab, line feed, vertical tab, form feed and
/// carriage return.
pub open spec fn is_space(b: u8) -> bool {
    b == 32u8 || (9u8 <= b && b <= 13u8)
}

pub open spec fn trim_front(s: Seq<u8>) -> Seq<u8>
    decreases s.len(),
{
    if s.len() > 0 && is_space(s[0]) {
        trim_front(s.drop_first())
    } else {
        s
    }
}

pub open spec fn trim_back(s: Seq<u8>) -> Seq<u8>
    decreases s.len(),
{
    if s.len() > 0 && is_space(s.last()) {
        trim_back(s.drop_last())
    } else {
        s
    }
}

/// `s` without leading and trailing whitespace.
pub open spec fn trim(s: Seq<u8>) -> Seq<u8> {
    trim_back(trim_front(s))
}

/// The lines of `b` (split at line feeds), each trimmed.
pub open spec fn text_lines(b: Seq<u8>) -> Seq<Seq<u8>> {
    split_on(b, 10u8).map_values(|l: Seq<u8>| trim(l))
}

/// The maximal runs of non-whitespace bytes of `s`, in order.
pub open spec fn words(s: Seq<u8>) -> Seq<Seq<u8>>
    decreases s.len(),
{
    if s.len() == 0 {
        Seq::empty()
    } else {
        let w = words(s.drop_last());
        if is_space(s.last()) {
            w
        } else if s.len() > 1 && !is_space(s[s.len() - 2]) {
            w.update(w.len() - 1, w.last().push(s.last()))
        } else {
            w.push(seq![s.last()])
        }
    }
}

/// The bounds of `b[lo..hi]` without leading and trailing whitespace.
pub fn trim_range(b: &[u8], lo: usize, hi: usize) -> (r: (usize, usize))
    requires
        lo <= hi <= b@.len(),
    ensures
        lo <= r.0 <= r.1 <= hi,
        b@.subrange(r.0 as int, r.1 as int) == trim(b@.subrange(lo as int, hi as int)),
{
    let mut s = lo;
    while s < hi && (b[s] == 32u8 || (9u8 <= b[s] && b[s] <= 13u8))
        invariant
            lo <= s <= hi <= b@.len(),
            trim_front(b@.subrange(lo as int, hi as int)) == trim_front(
                b@.subrange(s as int, hi as int),
            ),
        decreases hi - s,
    {
        assert(b@.subrange(s as int, hi as int).drop_first() == b@.subrange(s + 1, hi as int));
        s += 1;
    }
    assert(trim_front(b@.subrange(s as int, hi as int)) == b@.subrange(s as int, hi as int));
    let mut e = hi;
    while e > s && (b[e - 1] == 32u8 || (9u8 <= b[e - 1] && b[e - 1] <= 13u8))
        invariant
            lo <= s <= e <= hi <= b@.len(),
            trim_back(b@.subrange(s as int, hi as int)) == trim_back(
                b@.subrange(s as int, e as int),
            ),
        decreases e,
    {
        assert(b@.subrange(s as int, e as int).drop_last() == b@.subrange(s as int, e - 1));
        e -= 1;
    }
    assert(trim_back(b@.subrange(s as int, e as int)) == b@.subrange(s as int, e as int));
    (s, e)
}

/// The bounds of the trimmed lines of `b`.
pub fn line_ranges(b: &[u8]) -> (r: Vec<(usize, usize)>)
    ensures
        r@.len() == text_lines(b@).len(),
        forall|i: int|
            #![trigger r@[i]]
            0 <= i < r@.len() ==> r@[i].0 <= r@[i].1 <= b@.len() && b@.subrange(
                r@[i].0 as int,
                r@[i].1 as int,
            ) == text_lines(b@)[i],
{
    let mut r: Vec<(usize, usize)> = Vec::new();
    let ghost mut done: Seq<Seq<u8>> = Seq::empty();
    let mut start: usize = 0;
    let mut i: usize = 0;
    assert(b@.subrange(0, 0) == Seq::<u8>::empty());
    assert(split_on(Seq::<u8>::empty(), 10u8) == seq![Seq::<u8>::empty()]);
    while i < b.len()
        invariant
            start <= i <= b@.len(),
            split_on(b@.subrange(0, i as int), 10u8) == done.push(
                b@.subrange(start as int, i as int),
            ),
            r@.len() == done.len(),
            forall|k: int|
                #![trigger r@[k]]
                0 <= k < r@.len() ==> r@[k].0 <= r@[k].1 <= b@.len() && b@.subrange(
                    r@[k].0 as int,
                    r@[k].1 as int,
                ) == trim(done[k]),
        decreases b.len() - i,
    {
        let ghost cur = b@.subrange(start as int, i as int);
        assert(b@.subrange(0, i + 1).drop_last() == b@.subrange(0, i as int));
        if b[i] == 10u8 {
            let t = trim_range(b, start, i);
            r.push(t);
            proof {
                done = done.push(cur);
            }
            start = i + 1;
            assert(b@.subrange(start as int, i + 1) == Seq::<u8>::empty());
        } else {
            assert(b@.subrange(start as int, i + 1) == cur.push(b@[i as int]));
        }
        i += 1;
    }
    let t = trim_range(b, start, b.len());
    r.push(t);
    proof {
        done = done.push(b@.subrange(start as int, b@.len() as int));
        assert(b@.subrange(0, b@.len() as int) == b@);
    }
    r
}

/// The bounds of the words of `b[lo..hi]`.
pub fn word_ranges(b: &[u8], lo: usize, hi: usize) -> (r: Vec<(usize, usize)>)
    requires
        lo <= hi <= b@.len(),
    ensures
        r@.len() == words(b@.subrange(lo as int, hi as int)).len(),
        forall|i: int|
            #![trigger r@[i]]
            0 <= i < r@.len() ==> lo <= r@[i].0 <= r@[i].1 <= hi && b@.subrange(
                r@[i].0 as int,
                r@[i].1 as int,
            ) == words(b@.subrange(lo as int, hi as int))[i],
{
    let mut r: Vec<(usize, usize)> = Vec::new();
    let mut i: usize = lo;
    let mut in_word = false;
    let mut start: usize = lo;
    assert(b@.subrange(lo as int, lo as int) == Seq::<u8>::empty());
    while i < hi
        invariant
            lo <= start <= i <= hi <= b@.len(),
            in_word ==> start < i && !is_space(b@[i - 1]),
            !in_word ==> i == lo || is_space(b@[i - 1]),
            in_word ==> words(b@.subrange(lo as int, i as int)) == r@.map_values(
                |p: (usize, usize)| b@.subrange(p.0 as int, p.1 as int),
            ).push(b@.subrange(start as int, i as int)),
            !in_word ==> words(b@.subrange(lo as int, i as int)) == r@.map_values(
                |p: (usize, usize)| b@.subrange(p.0 as int, p.1 as int),
            ),
            forall|k: int| #![trigger r@[k]] 0 <= k < r@.len() ==> lo <= r@[k].0 <= r@[k].1 <= i,
        decreases hi - i,
    {
        let ghost prefix = b@.subrange(lo as int, i + 1);
        assert(prefix.drop_last() == b@.subrange(lo as int, i as int));
        assert(prefix.last() == b@[i as int]);
        if b[i] == 32u8 || (9u8 <= b[i] && b[i] <= 13u8) {
            if in_word {
                r.push((start, i));
                in_word = false;
            }
        } else if in_word {
            assert(prefix.len() > 1 && prefix[prefix.len() - 2] == b@[i - 1]);
            assert(b@.subrange(start as int, i + 1) == b@.subrange(start as int, i as int).push(
                b@[i as int],
            ));
        } else {
            if i > lo {
                assert(prefix[prefix.len() - 2] == b@[i - 1]);
            }
            start = i;
            in_word = true;
            assert(b@.subrange(start as int, i + 1) == seq![b@[i as int]]);
        }
        i += 1;
    }
    if in_word {
        r.push((start, hi));
    }
    proof {
        let m = r@.map_values(|p: (usize, usize)| b@.subrange(p.0 as int, p.1 as int));
        assert(m.len() == r@.len());
        assert forall|k: int| 0 <= k < r@.len() implies b@.subrange(
            (#[trigger] r@[k]).0 as int,
            r@[k].1 as int,
        ) == words(b@.subrange(lo as int, hi as int))[k] by {
            assert(m[k] == b@.subrange(r@[k].0 as int, r@[k].1 as int));
        }
    }
    r
}

/// The position of the first `x` in `s`, or -1.
pub open spec fn find_byte(s: Seq<u8>, x: u8) -> int
    decreases s.len(),
{
    if s.len() == 0 {
        -1
    } else {
        let p = find_byte(s.drop_last(), x);
        if p >= 0 {
            p
        } else if s.last() == x {
            s.len() - 1
        } else {
            -1
        }
    }
}

proof fn lemma_find_byte(s: Seq<u8>, x: u8)
    ensures
        -1 <= find_byte(s, x) < s.len(),
        find_byte(s, x) >= 0 ==> s[find_byte(s, x)] == x,
        forall|k: int| 0 <= k < s.len() && (find_byte(s, x) < 0 || k < find_byte(s, x)) ==> s[k] != x,
    decreases s.len(),
{
    if s.len() > 0 {
        lemma_find_byte(s.drop_last(), x);
        assert forall|k: int|
            0 <= k < s.len() - 1 implies #[trigger] s[k] == s.drop_last()[k] by {}
    }
}

/// The first position of `x` in `b[lo..hi]`, as an offset into `b`.
pub fn find_in(b: &[u8], lo: usize, hi: usize, x: u8) -> (r: Option<usize>)
    requires
        lo <= hi <= b@.len(),
    ensures
        match r {
            Some(p) => lo <= p < hi && p - lo == find_byte(b@.subrange(lo as int, hi as int), x),
            None => find_byte(b@.subrange(lo as int, hi as int), x) < 0,
        },
{
    let ghost s = b@.subrange(lo as int, hi as int);
    proof {
        lemma_find_byte(s, x);
    }
    let mut i = lo;
    while i < hi
        invariant
            lo <= i <= hi <= b@.len(),
            s == b@.subrange(lo as int, hi as int),
            forall|k: int| lo <= k < i ==> b@[k] != x,
            -1 <= find_byte(s, x) < s.len(),
            find_byte(s, x) >= 0 ==> s[find_byte(s, x)] == x,
            forall|k: int| 0 <= k < s.len() && (find_byte(s, x) < 0 || k < find_byte(s, x)) ==> s[k] != x,
        decreases hi - i,
    {
        if b[i] == x {
            proof {
                assert(s[i - lo] == x);
                if find_byte(s, x) >= 0 && find_byte(s, x) < i - lo {
                    assert(b@[lo + find_byte(s, x)] == x);
                }
            }
            return Some(i);
        }
        i += 1;
    }
    proof {
        if find_byte(s, x) >= 0 {
            assert(b@[lo + find_byte(s, x)] == x);
        }
    }
    None
}

pub open spec fn is_digit(c: u8) -> bool {
    48u8 <= c && c <= 57u8
}

pub open spec fn all_digits(t: Seq<u8>) -> bool {
    forall|i: int| 0 <= i < t.len() ==> #[trigger] is_digit(t[i])
}

/// The value of a run of decimal digits.
pub open spec fn digits_value(t: Seq<u8>) -> int
    decreases t.len(),
{
    if t.len() == 0 {
        0
    } else {
        digits_value(t.drop_last()) * 10 + (t.last() - 48)
    }
}

/// The text read as a `usize`: an optional `+`, then digits, within range.
pub open spec fn parse_usize_text(t: Seq<u8>) -> Option<usize> {
    let d = if t.len() > 0 && t[0] == 43u8 {
        t.drop_first()
    } else {
        t
    };
    if d.len() > 0 && all_digits(d) && digits_value(d) <= usize::MAX {
        Some(digits_value(d) as usize)
    } else {
        None
    }
}

/// The text read as an `i32`: an optional sign, then digits, within range.
pub open spec fn parse_i32_text(t: Seq<u8>) -> Option<i32> {
    let signed = t.len() > 0 && (t[0] == 43u8 || t[0] == 45u8);
    let d = if signed {
        t.drop_first()
    } else {
        t
    };
    let v = if signed && t[0] == 45u8 {
        -digits_value(d)
    } else {
        digits_value(d)
    };
    if d.len() > 0 && all_digits(d) && i32::MIN <= v <= i32::MAX {
        Some(v as i32)
    } else {
        None
    }
}

proof fn lemma_digits_grow(t: Seq<u8>, k: int)
    requires
        0 <= k <= t.len(),
        all_digits(t),
    ensures
        0 <= digits_value(t.subrange(0, k)) <= digits_value(t),
    decreases t.len() - k,
{
    if k < t.len() {
        assert(all_digits(t.subrange(0, k + 1))) by {
            assert forall|i: int| 0 <= i < k + 1 implies #[trigger] is_digit(
                t.subrange(0, k + 1)[i],
            ) by {
                assert(t.subrange(0, k + 1)[i] == t[i]);
            }
        }
        lemma_digits_grow(t, k + 1);
        assert(t.subrange(0, k + 1).drop_last() == t.subrange(0, k));
        assert(is_digit(t.subrange(0, k + 1)[k]));
        lemma_digits_nonneg(t.subrange(0, k + 1));
        assert(all_digits(t.subrange(0, k))) by {
            assert forall|i: int| 0 <= i < k implies #[trigger] is_digit(t.subrange(0, k)[i]) by {
                assert(t.subrange(0, k)[i] == t[i]);
            }
        }
        lemma_digits_nonneg(t.subrange(0, k));
    } else {
        assert(t.subrange(0, k) == t);
        lemma_digits_nonneg(t);
    }
}

proof fn lemma_digits_nonneg(t: Seq<u8>)
    requires
        all_digits(t),
    ensures
        digits_value(t) >= 0,
    decreases t.len(),
{
    if t.len() > 0 {
        assert(all_digits(t.drop_last())) by {
            assert forall|i: int| 0 <= i < t.len() - 1 implies #[trigger] is_digit(
                t.drop_last()[i],
            ) by {
                assert(t.drop_last()[i] == t[i]);
            }
        }
        lemma_digits_nonneg(t.drop_last());
        assert(is_digit(t[t.len() - 1]));
    }
}

/// The value of the digits `t[from..]`, if every byte there is a digit and
/// the value is at most `bound`.
fn read_digits(t: &[u8], from: usize, bound: u64) -> (r: Option<u64>)
    requires
        from <= t@.len(),
        bound >= 9,
    ensures
        match r {
            Some(v) => all_digits(t@.subrange(from as int, t@.len() as int)) && v == digits_value(
                t@.subrange(from as int, t@.len() as int),
            ) && v <= bound,
            None => !(all_digits(t@.subrange(from as int, t@.len() as int)) && digits_value(
                t@.subrange(from as int, t@.len() as int),
            ) <= bound),
        },
{
    let ghost d = t@.subrange(from as int, t@.len() as int);
    let mut v: u64 = 0;
    let mut i = from;
    assert(d.subrange(0, 0) == Seq::<u8>::empty());
    while i < t.len()
        invariant
            from <= i <= t@.len(),
            d == t@.subrange(from as int, t@.len() as int),
            all_digits(d.subrange(0, i - from)),
            v == digits_value(d.subrange(0, i - from)),
            v <= bound,
            bound >= 9,
        decreases t.len() - i,
    {
        let c = t[i];
        assert(d[i - from] == c);
        if c < 48u8 || c > 57u8 {
            assert(!is_digit(d[i - from]));
            return None;
        }
        let dv = (c - 48u8) as u64;
        assert(d.subrange(0, i + 1 - from).drop_last() == d.subrange(0, i - from));
        assert(all_digits(d.subrange(0, i + 1 - from))) by {
            assert forall|j: int| 0 <= j < i + 1 - from implies #[trigger] is_digit(
                d.subrange(0, i + 1 - from)[j],
            ) by {
                if j < i - from {
                    assert(d.subrange(0, i + 1 - from)[j] == d.subrange(0, i - from)[j]);
                }
            }
        }
        if v > (bound - dv) / 10 {
            proof {
                if all_digits(d) {
                    lemma_digits_grow(d, i + 1 - from);
                }
            }
            return None;
        }
        v = v * 10 + dv;
        i += 1;
    }
    assert(d.subrange(0, i - from) == d);
    Some(v)
}

/// Reads a `usize` as `str::parse` does: an optional `+`, then digits.
pub fn parse_usize_bytes(t: &[u8]) -> (r: Option<usize>)
    ensures
        r == parse_usize_text(t@),
{
    let from: usize = if t.len() > 0 && t[0] == 43u8 {
        1
    } else {
        0
    };
    assert(t@.subrange(from as int, t@.len() as int) == (if t@.len() > 0 && t@[0] == 43u8 {
        t@.drop_first()
    } else {
        t@
    }));
    if from == t.len() {
        return None;
    }
    match read_digits(t, from, usize::MAX as u64) {
        None => None,
        Some(v) => Some(v as usize),
    }
}

/// Reads an `i32` as `str::parse` does: an optional sign, then digits.
pub fn parse_i32_bytes(t: &[u8]) -> (r: Option<i32>)
    ensures
        r == parse_i32_text(t@),
{
    let signed = t.len() > 0 && (t[0] == 43u8 || t[0] == 45u8);
    let negative = signed && t[0] == 45u8;
    let from: usize = if signed {
        1
    } else {
        0
    };
    assert(t@.subrange(from as int, t@.len() as int) == (if signed {
        t@.drop_first()
    } else {
        t@
    }));
    if from == t.len() {
        return None;
    }
    let bound: u64 = if negative {
        2147483648
    } else {
        2147483647
    };
    match read_digits(t, from, bound) {
        None => None,
        Some(v) => {
            if negative {
                Some((0 - (v as i64)) as i32)
            } else {
                Some(v as i32)
            }
        },
    }
}

/// Whether `a` and `b` hold the same bytes.
pub fn bytes_equal(a: &[u8], b: &[u8]) -> (r: bool)
    ensures
        r == (a@ == b@),
{
    if a.len() != b.len() {
        return false;
    }
    let mut i: usize = 0;
    while i < a.len()
        invariant
            i <= a@.len() == b@.len(),
            forall|k: int| 0 <= k < i ==> a@[k] == b@[k],
        decreases a.len() - i,
    {
        if a[i] != b[i] {
            return false;
        }
        i += 1;
    }
    assert(a@ =~= b@);
    true
}

} // verus!
