//! Character-level helpers shared by the parsers of this crate: splitting,
//! searching, whitespace-delimited words and decimal numbers.
use vstd::prelude::*;

verus! {

// ---------------------------------------------------------------------------
// Specifications
// ---------------------------------------------------------------------------

/// The pieces of `s` between occurrences of `sep`, as `str::split` yields them:
/// always at least one piece, an empty one for an empty input.
pub open spec fn split_on(s: Seq<char>, sep: char) -> Seq<Seq<char>>
    decreases s.len(),
{
    if s.len() == 0 {
        seq![Seq::<char>::empty()]
    } else {
        let f = split_on(s.drop_last(), sep);
        if s.last() == sep {
            f.push(Seq::<char>::empty())
        } else {
            f.update(f.len() - 1, f.last().push(s.last()))
        }
    }
}

/// `pat` occurs in `s` starting at index `i`.
pub open spec fn matches_at(s: Seq<char>, pat: Seq<char>, i: int) -> bool {
    &&& 0 <= i
    &&& i + pat.len() <= s.len()
    &&& s.subrange(i, i + pat.len()) == pat
}

/// The first index at or after `i` where `pat` occurs in `s`, as `str::find`
/// reports it (counted in characters).
pub open spec fn find_from(s: Seq<char>, pat: Seq<char>, i: int) -> Option<int>
    decreases s.len() + 1 - i,
{
    if i < 0 || i + pat.len() > s.len() {
        None
    } else if matches_at(s, pat, i) {
        Some(i)
    } else {
        find_from(s, pat, i + 1)
    }
}

/// The characters with the Unicode `White_Space` property, which is what
/// `char::is_whitespace` tests.
pub open spec fn is_space(c: char) -> bool {
    ||| ('\u{9}' <= c && c <= '\u{d}')
    ||| c == ' '
    ||| c == '\u{85}'
    ||| c == '\u{a0}'
    ||| c == '\u{1680}'
    ||| ('\u{2000}' <= c && c <= '\u{200a}')
    ||| c == '\u{2028}'
    ||| c == '\u{2029}'
    ||| c == '\u{202f}'
    ||| c == '\u{205f}'
    ||| c == '\u{3000}'
}

/// `s` without its leading whitespace.
pub open spec fn skip_space(s: Seq<char>) -> Seq<char>
    decreases s.len(),
{
    if s.len() > 0 && is_space(s[0]) {
        skip_space(s.drop_first())
    } else {
        s
    }
}

/// The characters of `s` before its first whitespace character.
pub open spec fn word(s: Seq<char>) -> Seq<char>
    decreases s.len(),
{
    if s.len() == 0 || is_space(s[0]) {
        Seq::<char>::empty()
    } else {
        seq![s[0]] + word(s.drop_first())
    }
}

/// The first whitespace-separated word of `s`, or the empty sequence where
/// `s` holds none (what `split_whitespace().next().unwrap_or("")` gives).
pub open spec fn first_word(s: Seq<char>) -> Seq<char> {
    word(skip_space(s))
}

pub open spec fn is_digit(c: char) -> bool {
    '0' <= c && c <= '9'
}

pub open spec fn all_digits(s: Seq<char>) -> bool {
    forall|i: int| 0 <= i < s.len() ==> #[trigger] is_digit(s[i])
}

pub open spec fn digit_value(c: char) -> nat {
    (c as int - '0' as int) as nat
}

/// The number that the decimal digits `s` denote.
pub open spec fn digits_value(s: Seq<char>) -> nat
    decreases s.len(),
{
    if s.len() == 0 {
        0
    } else {
        digits_value(s.drop_last()) * 10 + digit_value(s.last())
    }
}

/// What `s.parse::<u32>()` accepts: an optional `+`, then one or more ASCII
/// digits whose value fits in a `u32`.
pub open spec fn parse_u32_spec(s: Seq<char>) -> Option<u32> {
    let d = if s.len() > 0 && s[0] == '+' { s.drop_first() } else { s };
    if d.len() > 0 && all_digits(d) && digits_value(d) <= u32::MAX {
        Some(digits_value(d) as u32)
    } else {
        None
    }
}

// ---------------------------------------------------------------------------
// Lemmas
// ---------------------------------------------------------------------------

pub proof fn lemma_split_nonempty(s: Seq<char>, sep: char)
    ensures
        split_on(s, sep).len() >= 1,
    decreases s.len(),
{
    if s.len() > 0 {
        lemma_split_nonempty(s.drop_last(), sep);
    }
}

/// One more character extends the last piece, or starts a new one.
pub proof fn lemma_split_step(s: Seq<char>, sep: char, i: int)
    requires
        0 <= i < s.len(),
    ensures
        split_on(s.take(i + 1), sep) == (if s[i] == sep {
            split_on(s.take(i), sep).push(Seq::<char>::empty())
        } else {
            split_on(s.take(i), sep).update(
                split_on(s.take(i), sep).len() - 1,
                split_on(s.take(i), sep).last().push(s[i]),
            )
        }),
{
    assert(s.take(i + 1).drop_last() =~= s.take(i));
    lemma_split_nonempty(s.take(i), sep);
}

/// What `find_from` reports is an occurrence, at or after the start.
pub proof fn lemma_find_from_found(s: Seq<char>, pat: Seq<char>, i: int, k: int)
    requires
        find_from(s, pat, i) == Some(k),
    ensures
        i <= k,
        matches_at(s, pat, k),
        forall|j: int| i <= j < k ==> !matches_at(s, pat, j),
    decreases s.len() + 1 - i,
{
    if !(i < 0 || i + pat.len() > s.len()) && !matches_at(s, pat, i) {
        lemma_find_from_found(s, pat, i + 1, k);
    }
}

pub proof fn lemma_digits_value_monotone(s: Seq<char>, c: char)
    requires
        is_digit(c),
    ensures
        digits_value(s.push(c)) == digits_value(s) * 10 + digit_value(c),
        digits_value(s.push(c)) >= digits_value(s),
{
    assert(s.push(c).drop_last() =~= s);
}

proof fn lemma_skip_space_step(s: Seq<char>, i: int)
    requires
        0 <= i < s.len(),
    ensures
        s.skip(i).drop_first() == s.skip(i + 1),
        s.skip(i)[0] == s[i],
{
    assert(s.skip(i).drop_first() =~= s.skip(i + 1));
}

// ---------------------------------------------------------------------------
// Executable functions
// ---------------------------------------------------------------------------

/// The characters of `s`, in order.
pub fn chars_of(s: &str) -> (v: Vec<char>)
    ensures
        v@ == s@,
{
    broadcast use vstd::string::group_string_axioms;

    let mut v: Vec<char> = Vec::new();
    for c in it: s.chars()
        invariant
            it.seq() == s@,
            v@ == it.seq().take(it.index() as int),
    {
        v.push(c);
    }
    v
}

/// Whether `a` and `b` hold the same characters.
pub fn same_text(a: &str, b: &str) -> (r: bool)
    ensures
        r == (a@ == b@),
{
    let x = chars_of(a);
    let y = chars_of(b);
    if x.len() != y.len() {
        return false;
    }
    let mut i: usize = 0;
    while i < x.len()
        invariant
            x@ == a@,
            y@ == b@,
            x.len() == y.len(),
            i <= x.len(),
            forall|j: int| 0 <= j < i ==> x@[j] == y@[j],
        decreases x.len() - i,
    {
        if x[i] != y[i] {
            return false;
        }
        i = i + 1;
    }
    assert(x@ =~= y@);
    true
}

/// Whether `c` is a whitespace character.
pub fn char_is_space(c: char) -> (b: bool)
    ensures
        b == is_space(c),
{
    ('\u{9}' <= c && c <= '\u{d}') || c == ' ' || c == '\u{85}' || c == '\u{a0}' || c
        == '\u{1680}' || ('\u{2000}' <= c && c <= '\u{200a}') || c == '\u{2028}' || c
        == '\u{2029}' || c == '\u{202f}' || c == '\u{205f}' || c == '\u{3000}'
}

/// Whether `pat` occurs in `s` at index `i`.
pub fn occurs_at(s: &Vec<char>, pat: &Vec<char>, i: usize) -> (b: bool)
    ensures
        b == matches_at(s@, pat@, i as int),
{
    if i > s.len() || pat.len() > s.len() - i {
        return false;
    }
    let mut k: usize = 0;
    while k < pat.len()
        invariant
            i + pat.len() <= s.len(),
            k <= pat.len(),
            forall|j: int| 0 <= j < k ==> s@[i + j] == pat@[j],
        decreases pat.len() - k,
    {
        if s[i + k] != pat[k] {
            assert(s@.subrange(i as int, i + pat.len())[k as int] != pat@[k as int]);
            return false;
        }
        k = k + 1;
    }
    assert(s@.subrange(i as int, i + pat@.len()) =~= pat@);
    true
}

/// The first index at or after `from` where `pat` occurs in `s`.
pub fn find(s: &Vec<char>, pat: &Vec<char>, from: usize) -> (r: Option<usize>)
    ensures
        match r {
            Some(i) => find_from(s@, pat@, from as int) == Some(i as int),
            None => find_from(s@, pat@, from as int) is None,
        },
{
    let mut i = from;
    while i <= s.len() && pat.len() <= s.len() - i
        invariant
            find_from(s@, pat@, from as int) == find_from(s@, pat@, i as int),
        decreases s.len() + 1 - i,
    {
        if occurs_at(s, pat, i) {
            return Some(i);
        }
        assert(i < s.len()) by {
            if i == s.len() {
                assert(s@.subrange(i as int, i as int) =~= pat@);
            }
        }
        i = i + 1;
    }
    None
}

/// The range `lo..hi` of the first whitespace-separated word of `s[from..to]`.
pub fn first_word_range(s: &Vec<char>, from: usize, to: usize) -> (r: (usize, usize))
    requires
        from <= to <= s.len(),
    ensures
        from <= r.0 <= r.1 <= to,
        s@.subrange(r.0 as int, r.1 as int) == first_word(s@.subrange(from as int, to as int)),
{
    let ghost t = s@.subrange(0, to as int);
    let mut i = from;
    while i < to && char_is_space(s[i])
        invariant
            from <= i <= to <= s.len(),
            t == s@.subrange(0, to as int),
            skip_space(t.skip(from as int)) == skip_space(t.skip(i as int)),
        decreases to - i,
    {
        proof {
            lemma_skip_space_step(t, i as int);
        }
        i = i + 1;
    }
    assert(skip_space(t.skip(i as int)) == t.skip(i as int)) by {
        if i < to {
            lemma_skip_space_step(t, i as int);
        }
    }
    let lo = i;
    while i < to && !char_is_space(s[i])
        invariant
            lo <= i <= to <= s.len(),
            t == s@.subrange(0, to as int),
            word(t.skip(lo as int)) == s@.subrange(lo as int, i as int) + word(t.skip(i as int)),
        decreases to - i,
    {
        proof {
            lemma_skip_space_step(t, i as int);
            assert(s@.subrange(lo as int, i + 1) =~= s@.subrange(lo as int, i as int) + seq![
                s@[i as int],
            ]);
        }
        i = i + 1;
    }
    assert(word(t.skip(i as int)) =~= Seq::<char>::empty()) by {
        if i < to {
            lemma_skip_space_step(t, i as int);
        }
    }
    assert(t.skip(from as int) =~= s@.subrange(from as int, to as int));
    assert(s@.subrange(lo as int, i as int) + Seq::<char>::empty() =~= s@.subrange(
        lo as int,
        i as int,
    ));
    (lo, i)
}

/// `s[lo..hi].parse::<u32>()`, as an `Option`.
pub fn parse_u32(s: &Vec<char>, lo: usize, hi: usize) -> (r: Option<u32>)
    requires
        lo <= hi <= s.len(),
    ensures
        r == parse_u32_spec(s@.subrange(lo as int, hi as int)),
{
    let ghost whole = s@.subrange(lo as int, hi as int);
    let mut start = lo;
    if lo < hi && s[lo] == '+' {
        start = lo + 1;
    }
    let ghost d = s@.subrange(start as int, hi as int);
    assert(d =~= (if whole.len() > 0 && whole[0] == '+' {
        whole.drop_first()
    } else {
        whole
    }));
    if start == hi {
        return None;
    }
    let mut value: u64 = 0;
    let mut i = start;
    while i < hi
        invariant
            start <= i <= hi <= s.len(),
            d == s@.subrange(start as int, hi as int),
            whole == s@.subrange(lo as int, hi as int),
            d == (if whole.len() > 0 && whole[0] == '+' {
                whole.drop_first()
            } else {
                whole
            }),
            value <= u32::MAX,
            value == digits_value(s@.subrange(start as int, i as int)),
            all_digits(s@.subrange(start as int, i as int)),
        decreases hi - i,
    {
        let c = s[i];
        if !('0' <= c && c <= '9') {
            assert(!is_digit(d[i - start]));
            return None;
        }
        let ghost prefix = s@.subrange(start as int, i as int);
        proof {
            assert(s@.subrange(start as int, i + 1) =~= prefix.push(c));
            lemma_digits_value_monotone(prefix, c);
        }
        let digit: u64 = (c as u64) - ('0' as u64);
        let next = value * 10 + digit;
        if next > u32::MAX as u64 {
            proof {
                assert(d.take(i + 1 - start) =~= s@.subrange(start as int, i + 1));
                if all_digits(d) {
                    lemma_digits_prefix_bound(d, (i + 1 - start) as int);
                }
            }
            return None;
        }
        value = next;
        i = i + 1;
    }
    assert(s@.subrange(start as int, hi as int) =~= d);
    Some(value as u32)
}

/// A prefix of digits never denotes more than the whole.
pub proof fn lemma_digits_prefix_bound(d: Seq<char>, n: int)
    requires
        0 <= n <= d.len(),
        all_digits(d),
    ensures
        digits_value(d.take(n)) <= digits_value(d),
    decreases d.len() - n,
{
    if n == d.len() {
        assert(d.take(n) =~= d);
    } else {
        lemma_digits_prefix_bound(d, n + 1);
        assert(is_digit(d[n]));
        assert(d.take(n + 1) =~= d.take(n).push(d[n]));
        lemma_digits_value_monotone(d.take(n), d[n]);
    }
}

} // verus!
