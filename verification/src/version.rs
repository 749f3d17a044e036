//! Release versions and their order. A semantic version such as
//! `v1.2.3-rc.1+build` is ordered by semver precedence: its three numbers
//! first, then a pre-release ranks below the release of the same numbers, and
//! build metadata does not count. Any other string is read as the numbers of
//! its dot-separated pieces that parse as a `u32`, the others skipped.
use vstd::prelude::*;

use crate::net::{lemma_text_less_irreflexive, lemma_text_less_total, lemma_text_less_transitive, text_less};
use crate::text::{
    all_digits, chars_of, digit_value, digits_value, is_digit, lemma_digits_value_monotone,
    lemma_split_step, parse_u32, parse_u32_spec, split_on,
};

verus! {

// ---------------------------------------------------------------------------
// Reading a version string
// ---------------------------------------------------------------------------

/// `s` without its leading `v` characters.
pub open spec fn trim_v(s: Seq<char>) -> Seq<char>
    decreases s.len(),
{
    if s.len() > 0 && s[0] == 'v' {
        trim_v(s.drop_first())
    } else {
        s
    }
}

/// The index of the first `c` in `t`, or `t.len()` where there is none.
pub open spec fn first_index(t: Seq<char>, c: char) -> int
    decreases t.len(),
{
    if t.len() == 0 {
        0
    } else if t[0] == c {
        0
    } else {
        1 + first_index(t.drop_first(), c)
    }
}

/// How many decimal digits `t` starts with.
pub open spec fn digit_prefix_len(t: Seq<char>) -> int
    decreases t.len(),
{
    if t.len() > 0 && is_digit(t[0]) {
        1 + digit_prefix_len(t.drop_first())
    } else {
        0
    }
}

/// The version without leading `v`s and without build metadata (from `+`).
pub open spec fn main_text(s: Seq<char>) -> Seq<char> {
    let t = trim_v(s);
    t.take(first_index(t, '+'))
}

/// The dot-separated numeric parts, before any pre-release (from `-`).
pub open spec fn core_parts(s: Seq<char>) -> Seq<Seq<char>> {
    let m = main_text(s);
    split_on(m.take(first_index(m, '-')), '.')
}

/// The dot-separated identifiers after the first `-`, if there is one.
pub open spec fn pre_release(s: Seq<char>) -> Option<Seq<Seq<char>>> {
    let m = main_text(s);
    let i = first_index(m, '-');
    if i < m.len() {
        Some(split_on(m.skip(i + 1), '.'))
    } else {
        None
    }
}

/// The dot-separated build identifiers after the first `+`, if there is one.
pub open spec fn build_ids(s: Seq<char>) -> Option<Seq<Seq<char>>> {
    let t = trim_v(s);
    let i = first_index(t, '+');
    if i < t.len() {
        Some(split_on(t.skip(i + 1), '.'))
    } else {
        None
    }
}

/// A numeric identifier: digits, without a leading zero.
pub open spec fn plain_number(p: Seq<char>) -> bool {
    p.len() > 0 && all_digits(p) && (p.len() == 1 || p[0] != '0')
}

/// A character allowed in identifiers: an ASCII letter or digit, or `-`.
pub open spec fn ident_char(c: char) -> bool {
    is_digit(c) || ('a' <= c && c <= 'z') || ('A' <= c && c <= 'Z') || c == '-'
}

/// A non-empty identifier of letters, digits and `-`.
pub open spec fn is_ident(p: Seq<char>) -> bool {
    p.len() > 0 && forall|i: int| 0 <= i < p.len() ==> #[trigger] ident_char(p[i])
}

/// The kinds of dot-separated pieces of a semantic version.
#[derive(Clone, Copy, Debug, PartialEq, Eq, Structural)]
pub enum Piece {
    Core,
    Pre,
    Build,
}

/// A piece of kind `k` is well formed: core parts are numeric identifiers,
/// pre-release identifiers are identifiers that, where numeric, have no
/// leading zero, and build identifiers are identifiers.
pub open spec fn piece_ok(k: Piece, p: Seq<char>) -> bool {
    match k {
        Piece::Core => plain_number(p),
        Piece::Pre => is_ident(p) && (all_digits(p) ==> plain_number(p)),
        Piece::Build => is_ident(p),
    }
}

pub open spec fn pieces_ok(k: Piece, ps: Seq<Seq<char>>) -> bool {
    forall|i: int| 0 <= i < ps.len() ==> #[trigger] piece_ok(k, ps[i])
}

/// `s`, without its leading `v`s, is a semantic version:
/// `MAJOR.MINOR.PATCH`, then optionally `-` and pre-release identifiers, then
/// optionally `+` and build identifiers.
pub open spec fn is_semver(s: Seq<char>) -> bool {
    &&& core_parts(s).len() == 3
    &&& pieces_ok(Piece::Core, core_parts(s))
    &&& (pre_release(s) matches Some(q) ==> pieces_ok(Piece::Pre, q))
    &&& (build_ids(s) matches Some(b) ==> pieces_ok(Piece::Build, b))
}

/// The values of the pieces in `parts` that parse as a `u32`, in order.
pub open spec fn numbers_of(parts: Seq<Seq<char>>) -> Seq<nat>
    decreases parts.len(),
{
    if parts.len() == 0 {
        Seq::<nat>::empty()
    } else {
        let rest = numbers_of(parts.drop_last());
        match parse_u32_spec(parts.last()) {
            Some(v) => rest.push(v as nat),
            None => rest,
        }
    }
}

/// How a string that is not a semantic version is read: the dot-separated
/// pieces (after the leading `v`s) that parse as a `u32`; the others are
/// skipped.
pub open spec fn loose_numbers(s: Seq<char>) -> Seq<nat> {
    numbers_of(split_on(trim_v(s), '.'))
}

/// The numbers of a semantic version's core.
pub open spec fn semver_numbers(s: Seq<char>) -> Seq<nat> {
    core_parts(s).map_values(|p: Seq<char>| digits_value(p))
}

/// The release numbers that `s` names.
pub open spec fn release_numbers(s: Seq<char>) -> Seq<nat> {
    if is_semver(s) {
        semver_numbers(s)
    } else {
        loose_numbers(s)
    }
}

/// The pre-release identifiers of `s`; only a semantic version has them.
pub open spec fn pre_ids(s: Seq<char>) -> Option<Seq<Seq<char>>> {
    if is_semver(s) {
        pre_release(s)
    } else {
        None
    }
}

// ---------------------------------------------------------------------------
// Precedence
// ---------------------------------------------------------------------------

pub open spec fn sign(x: int) -> int {
    if x < 0 {
        -1
    } else if x > 0 {
        1
    } else {
        0
    }
}

/// Number `i` of `v`, a missing one counting as 0.
pub open spec fn number_at(v: Seq<nat>, i: int) -> nat {
    if 0 <= i < v.len() {
        v[i]
    } else {
        0
    }
}

/// Compares release numbers from index `i` on: -1, 0 or 1.
pub open spec fn numbers_order_from(a: Seq<nat>, b: Seq<nat>, i: int) -> int
    decreases a.len() + b.len() - i,
{
    if i < 0 || (i >= a.len() && i >= b.len()) {
        0
    } else {
        let x = sign(number_at(a, i) - number_at(b, i));
        if x != 0 {
            x
        } else {
            numbers_order_from(a, b, i + 1)
        }
    }
}

/// A pre-release identifier made of digits only.
pub open spec fn is_numeric(p: Seq<char>) -> bool {
    p.len() > 0 && all_digits(p)
}

/// Lexical comparison: -1, 0 or 1.
pub open spec fn text_order(a: Seq<char>, b: Seq<char>) -> int {
    if a == b {
        0
    } else if text_less(a, b) {
        -1
    } else {
        1
    }
}

/// Compares two pre-release identifiers: numeric ones by value, below
/// the others, which compare lexically.
pub open spec fn ident_order(a: Seq<char>, b: Seq<char>) -> int {
    if is_numeric(a) && is_numeric(b) {
        sign(digits_value(a) - digits_value(b))
    } else if is_numeric(a) {
        -1
    } else if is_numeric(b) {
        1
    } else {
        text_order(a, b)
    }
}

/// Compares pre-release identifiers from index `i` on; of two lists that
/// agree as far as the shorter goes, the longer ranks higher.
pub open spec fn pre_order_from(p: Seq<Seq<char>>, q: Seq<Seq<char>>, i: int) -> int
    decreases p.len() + q.len() - i,
{
    if i < 0 || (i >= p.len() && i >= q.len()) {
        0
    } else if i >= p.len() {
        -1
    } else if i >= q.len() {
        1
    } else {
        let x = ident_order(p[i], q[i]);
        if x != 0 {
            x
        } else {
            pre_order_from(p, q, i + 1)
        }
    }
}

/// The precedence of version `a` against version `b`: -1, 0 or 1. Release
/// numbers compare first; at equal numbers a pre-release ranks below a
/// release, and two pre-releases compare by their identifiers.
pub open spec fn version_order(a: Seq<char>, b: Seq<char>) -> int {
    let c = numbers_order_from(release_numbers(a), release_numbers(b), 0);
    if c != 0 {
        c
    } else {
        match (pre_ids(a), pre_ids(b)) {
            (None, None) => 0,
            (None, Some(_)) => 1,
            (Some(_), None) => -1,
            (Some(p), Some(q)) => pre_order_from(p, q, 0),
        }
    }
}

// ---------------------------------------------------------------------------
// Helpers on character ranges
// ---------------------------------------------------------------------------

/// The first index in `lo..hi` holding `c`, or `hi`.
pub fn first_char(s: &Vec<char>, c: char, lo: usize, hi: usize) -> (r: usize)
    requires
        lo <= hi <= s.len(),
    ensures
        lo <= r <= hi,
        r - lo == first_index(s@.subrange(lo as int, hi as int), c),
{
    let mut i = lo;
    while i < hi && s[i] != c
        invariant
            lo <= i <= hi <= s.len(),
            first_index(s@.subrange(lo as int, hi as int), c) == (i - lo) + first_index(
                s@.subrange(i as int, hi as int),
                c,
            ),
        decreases hi - i,
    {
        assert(s@.subrange(i as int, hi as int).drop_first() =~= s@.subrange(i + 1, hi as int));
        i = i + 1;
    }
    i
}

/// The end of the run of digits that starts at `lo` (at most `hi`).
pub fn digits_end(s: &Vec<char>, lo: usize, hi: usize) -> (r: usize)
    requires
        lo <= hi <= s.len(),
    ensures
        lo <= r <= hi,
        r - lo == digit_prefix_len(s@.subrange(lo as int, hi as int)),
        all_digits(s@.subrange(lo as int, r as int)),
{
    let mut i = lo;
    while i < hi && '0' <= s[i] && s[i] <= '9'
        invariant
            lo <= i <= hi <= s.len(),
            digit_prefix_len(s@.subrange(lo as int, hi as int)) == (i - lo) + digit_prefix_len(
                s@.subrange(i as int, hi as int),
            ),
            all_digits(s@.subrange(lo as int, i as int)),
        decreases hi - i,
    {
        assert(s@.subrange(i as int, hi as int).drop_first() =~= s@.subrange(i + 1, hi as int));
        assert(s@.subrange(lo as int, i + 1) =~= s@.subrange(lo as int, i as int).push(s@[i as int]));
        i = i + 1;
    }
    i
}

/// The ranges of the pieces of `s[lo..hi]` between occurrences of `sep`.
pub fn split_ranges(s: &Vec<char>, lo: usize, hi: usize, sep: char) -> (r: Vec<(usize, usize)>)
    requires
        lo <= hi <= s.len(),
    ensures
        r.len() == split_on(s@.subrange(lo as int, hi as int), sep).len(),
        forall|i: int|
            0 <= i < r.len() ==> lo <= (#[trigger] r@[i]).0 <= r@[i].1 <= hi && s@.subrange(
                r@[i].0 as int,
                r@[i].1 as int,
            ) == split_on(s@.subrange(lo as int, hi as int), sep)[i],
{
    let ghost t = s@.subrange(lo as int, hi as int);
    let mut out: Vec<(usize, usize)> = Vec::new();
    let mut start = lo;
    let mut j = lo;
    proof {
        assert(t.take(0) =~= Seq::<char>::empty());
        assert(s@.subrange(start as int, j as int) =~= Seq::<char>::empty());
    }
    while j < hi
        invariant
            lo <= start <= j <= hi <= s.len(),
            t == s@.subrange(lo as int, hi as int),
            split_on(t.take(j - lo), sep).len() == out.len() + 1,
            forall|i: int|
                0 <= i < out.len() ==> lo <= (#[trigger] out@[i]).0 <= out@[i].1 <= start
                    && s@.subrange(out@[i].0 as int, out@[i].1 as int) == split_on(
                    t.take(j - lo),
                    sep,
                )[i],
            split_on(t.take(j - lo), sep).last() == s@.subrange(start as int, j as int),
        decreases hi - j,
    {
        let ghost before = split_on(t.take(j - lo), sep);
        proof {
            lemma_split_step(t, sep, j - lo);
        }
        let ghost after = split_on(t.take(j + 1 - lo), sep);
        if s[j] == sep {
            out.push((start, j));
            proof {
                assert(s@.subrange(j + 1, j + 1) =~= Seq::<char>::empty());
                assert forall|i: int| 0 <= i < out.len() implies lo <= (#[trigger] out@[i]).0
                    <= out@[i].1 <= j + 1 && s@.subrange(out@[i].0 as int, out@[i].1 as int)
                    == after[i] by {
                    if i < out.len() - 1 {
                        assert(after[i] == before[i]);
                    }
                }
            }
            start = j + 1;
        } else {
            proof {
                assert(s@.subrange(start as int, j + 1) =~= s@.subrange(
                    start as int,
                    j as int,
                ).push(s@[j as int]));
                assert forall|i: int| 0 <= i < out.len() implies lo <= (#[trigger] out@[i]).0
                    <= out@[i].1 <= start && s@.subrange(out@[i].0 as int, out@[i].1 as int)
                    == after[i] by {
                    assert(after[i] == before[i]);
                }
            }
        }
        j = j + 1;
    }
    out.push((start, hi));
    proof {
        assert(t.take(hi - lo) =~= t);
    }
    out
}


// ---------------------------------------------------------------------------
// Numbers and identifiers
// ---------------------------------------------------------------------------

pub open spec fn zeros(m: nat) -> Seq<char> {
    Seq::new(m, |i: int| '0')
}

proof fn lemma_zeros_value(m: nat)
    ensures
        digits_value(zeros(m)) == 0,
        all_digits(zeros(m)),
    decreases m,
{
    if m > 0 {
        assert(zeros(m).drop_last() =~= zeros((m - 1) as nat));
        lemma_zeros_value((m - 1) as nat);
    }
}

/// Leading zeros do not change a number.
proof fn lemma_zeros_prefix(m: nat, a: Seq<char>)
    ensures
        digits_value(zeros(m) + a) == digits_value(a),
    decreases a.len(),
{
    if a.len() == 0 {
        assert(zeros(m) + a =~= zeros(m));
        lemma_zeros_value(m);
    } else {
        assert((zeros(m) + a).drop_last() =~= zeros(m) + a.drop_last());
        lemma_zeros_prefix(m, a.drop_last());
    }
}

/// Where the run of leading digits stops, a non-digit stands.
proof fn lemma_digit_prefix_stop(t: Seq<char>)
    ensures
        0 <= digit_prefix_len(t) <= t.len(),
        digit_prefix_len(t) < t.len() ==> !is_digit(t[digit_prefix_len(t)]),
        all_digits(t.take(digit_prefix_len(t))),
    decreases t.len(),
{
    if t.len() > 0 && is_digit(t[0]) {
        lemma_digit_prefix_stop(t.drop_first());
        let k = digit_prefix_len(t.drop_first());
        assert(t.take(k + 1) =~= seq![t[0]] + t.drop_first().take(k));
        assert forall|i: int| 0 <= i < k + 1 implies #[trigger] is_digit(t.take(k + 1)[i]) by {
            if i > 0 {
                assert(t.take(k + 1)[i] == t.drop_first().take(k)[i - 1]);
            }
        }
    } else {
        assert(t.take(0) =~= Seq::<char>::empty());
    }
}

/// Compares the numbers that `a[alo..ahi]` and `b[blo..bhi]` denote.
fn num_order(a: &Vec<char>, alo: usize, ahi: usize, b: &Vec<char>, blo: usize, bhi: usize) -> (r: i8)
    requires
        alo <= ahi <= a.len(),
        blo <= bhi <= b.len(),
        all_digits(a@.subrange(alo as int, ahi as int)),
        all_digits(b@.subrange(blo as int, bhi as int)),
    ensures
        r as int == sign(
            digits_value(a@.subrange(alo as int, ahi as int)) - digits_value(
                b@.subrange(blo as int, bhi as int),
            ),
        ),
{
    let ghost x = a@.subrange(alo as int, ahi as int);
    let ghost y = b@.subrange(blo as int, bhi as int);
    let la = ahi - alo;
    let lb = bhi - blo;
    let n = if la > lb { la } else { lb };
    let ghost pa = zeros((n - la) as nat) + x;
    let ghost pb = zeros((n - lb) as nat) + y;
    proof {
        lemma_zeros_prefix((n - la) as nat, x);
        lemma_zeros_prefix((n - lb) as nat, y);
        lemma_zeros_value((n - la) as nat);
        lemma_zeros_value((n - lb) as nat);
        assert(pa.take(0) =~= Seq::<char>::empty());
        assert(pb.take(0) =~= Seq::<char>::empty());
    }
    let mut r: i8 = 0;
    let mut k: usize = 0;
    while k < n
        invariant
            k <= n,
            n == if la > lb { la } else { lb },
            la == ahi - alo,
            lb == bhi - blo,
            alo <= ahi <= a.len(),
            blo <= bhi <= b.len(),
            x == a@.subrange(alo as int, ahi as int),
            y == b@.subrange(blo as int, bhi as int),
            all_digits(x),
            all_digits(y),
            all_digits(zeros((n - la) as nat)),
            all_digits(zeros((n - lb) as nat)),
            pa == zeros((n - la) as nat) + x,
            pb == zeros((n - lb) as nat) + y,
            r as int == sign(digits_value(pa.take(k as int)) - digits_value(pb.take(k as int))),
        decreases n - k,
    {
        let dx: u32 = if k < n - la {
            0
        } else {
            let idx = k - (n - la);
            proof {
                assert(x[idx as int] == a@[alo + idx]);
                assert(is_digit(x[idx as int]));
            }
            (a[alo + idx] as u32) - ('0' as u32)
        };
        let dy: u32 = if k < n - lb {
            0
        } else {
            let idx = k - (n - lb);
            proof {
                assert(y[idx as int] == b@[blo + idx]);
                assert(is_digit(y[idx as int]));
            }
            (b[blo + idx] as u32) - ('0' as u32)
        };
        proof {
            if k >= n - la {
                assert(pa[k as int] == x[k - (n - la)]);
                assert(is_digit(x[k - (n - la)]));
            }
            if k >= n - lb {
                assert(pb[k as int] == y[k - (n - lb)]);
                assert(is_digit(y[k - (n - lb)]));
            }
            assert(is_digit(pa[k as int]));
            assert(is_digit(pb[k as int]));
            assert(dx == digit_value(pa[k as int]));
            assert(dy == digit_value(pb[k as int]));
            assert(pa.take(k + 1) =~= pa.take(k as int).push(pa[k as int]));
            assert(pb.take(k + 1) =~= pb.take(k as int).push(pb[k as int]));
            lemma_digits_value_monotone(pa.take(k as int), pa[k as int]);
            lemma_digits_value_monotone(pb.take(k as int), pb[k as int]);
        }
        if r == 0 {
            r = if dx < dy {
                -1
            } else if dx > dy {
                1
            } else {
                0
            };
        }
        k = k + 1;
    }
    proof {
        assert(pa.take(n as int) =~= pa);
        assert(pb.take(n as int) =~= pb);
    }
    r
}

/// Compares `a[alo..ahi]` and `b[blo..bhi]` lexically.
fn text_order_ranges(a: &Vec<char>, alo: usize, ahi: usize, b: &Vec<char>, blo: usize, bhi: usize) -> (r: i8)
    requires
        alo <= ahi <= a.len(),
        blo <= bhi <= b.len(),
    ensures
        r as int == text_order(a@.subrange(alo as int, ahi as int), b@.subrange(blo as int, bhi as int)),
{
    let ghost x = a@.subrange(alo as int, ahi as int);
    let ghost y = b@.subrange(blo as int, bhi as int);
    let mut i: usize = 0;
    proof {
        assert(x.skip(0) =~= x);
        assert(y.skip(0) =~= y);
    }
    while alo + i < ahi && blo + i < bhi && a[alo + i] == b[blo + i]
        invariant
            alo <= ahi <= a.len(),
            blo <= bhi <= b.len(),
            x == a@.subrange(alo as int, ahi as int),
            y == b@.subrange(blo as int, bhi as int),
            alo + i <= ahi,
            blo + i <= bhi,
            x.take(i as int) == y.take(i as int),
            text_less(x, y) == text_less(x.skip(i as int), y.skip(i as int)),
        decreases ahi - alo - i,
    {
        proof {
            assert(x.skip(i as int).drop_first() =~= x.skip(i + 1));
            assert(y.skip(i as int).drop_first() =~= y.skip(i + 1));
            assert(x.take(i + 1) =~= x.take(i as int).push(x[i as int]));
            assert(y.take(i + 1) =~= y.take(i as int).push(y[i as int]));
        }
        i = i + 1;
    }
    if alo + i == ahi && blo + i == bhi {
        assert(x =~= x.take(i as int));
        assert(y =~= y.take(i as int));
        0
    } else if alo + i == ahi {
        assert(x.len() != y.len());
        -1
    } else if blo + i == bhi {
        assert(x.len() != y.len());
        proof {
            assert(x.skip(i as int).len() > 0);
            assert(y.skip(i as int).len() == 0);
        }
        1
    } else {
        assert(x[i as int] != y[i as int]);
        assert(x.skip(i as int)[0] == x[i as int]);
        assert(y.skip(i as int)[0] == y[i as int]);
        if a[alo + i] < b[blo + i] {
            -1
        } else {
            1
        }
    }
}

/// Compares two pre-release identifiers `a[alo..ahi]` and `b[blo..bhi]`.
fn ident_order_ranges(a: &Vec<char>, alo: usize, ahi: usize, b: &Vec<char>, blo: usize, bhi: usize) -> (r: i8)
    requires
        alo <= ahi <= a.len(),
        blo <= bhi <= b.len(),
    ensures
        r as int == ident_order(a@.subrange(alo as int, ahi as int), b@.subrange(blo as int, bhi as int)),
{
    let ghost x = a@.subrange(alo as int, ahi as int);
    let ghost y = b@.subrange(blo as int, bhi as int);
    let ea = digits_end(a, alo, ahi);
    let eb = digits_end(b, blo, bhi);
    proof {
        lemma_digit_prefix_stop(x);
        lemma_digit_prefix_stop(y);
        if ea == ahi {
            assert(a@.subrange(alo as int, ea as int) =~= x);
        } else {
            assert(!is_digit(x[ea - alo]));
        }
        if eb == bhi {
            assert(b@.subrange(blo as int, eb as int) =~= y);
        } else {
            assert(!is_digit(y[eb - blo]));
        }
    }
    let na = alo < ahi && ea == ahi;
    let nb = blo < bhi && eb == bhi;
    if na && nb {
        num_order(a, alo, ahi, b, blo, bhi)
    } else if na {
        -1
    } else if nb {
        1
    } else {
        text_order_ranges(a, alo, ahi, b, blo, bhi)
    }
}

// ---------------------------------------------------------------------------
// Versions
// ---------------------------------------------------------------------------

/// Whether `c` may stand in an identifier.
fn ident_char_exec(c: char) -> (b: bool)
    ensures
        b == ident_char(c),
{
    ('0' <= c && c <= '9') || ('a' <= c && c <= 'z') || ('A' <= c && c <= 'Z') || c == '-'
}

/// Whether `s[lo..hi]` is a well-formed piece of kind `k`.
fn piece_ok_range(s: &Vec<char>, lo: usize, hi: usize, k: Piece) -> (b: bool)
    requires
        lo <= hi <= s.len(),
    ensures
        b == piece_ok(k, s@.subrange(lo as int, hi as int)),
{
    let ghost p = s@.subrange(lo as int, hi as int);
    let e = digits_end(s, lo, hi);
    proof {
        lemma_digit_prefix_stop(p);
        if e == hi {
            assert(s@.subrange(lo as int, e as int) =~= p);
        } else {
            assert(!is_digit(p[e - lo]));
        }
    }
    let digits = e == hi;
    let plain = lo < hi && digits && (hi - lo == 1 || s[lo] != '0');
    assert(plain == plain_number(p));
    match k {
        Piece::Core => plain,
        _ => {
            let mut i = lo;
            while i < hi && ident_char_exec(s[i])
                invariant
                    lo <= i <= hi <= s.len(),
                    p == s@.subrange(lo as int, hi as int),
                    forall|j: int| 0 <= j < i - lo ==> #[trigger] ident_char(p[j]),
                decreases hi - i,
            {
                i = i + 1;
            }
            if i < hi {
                assert(p[i - lo] == s@[i as int]);
            }
            let ident = lo < hi && i == hi;
            assert(ident == is_ident(p));
            match k {
                Piece::Pre => ident && (!digits || plain),
                _ => ident,
            }
        },
    }
}

/// Whether every range in `r` holds a well-formed piece of kind `k`.
fn pieces_ok_ranges(s: &Vec<char>, r: &Vec<(usize, usize)>, k: Piece, Ghost(ps): Ghost<Seq<Seq<char>>>) -> (b: bool)
    requires
        ranges_hold(s@, r@, ps),
    ensures
        b == pieces_ok(k, ps),
{
    let mut i: usize = 0;
    while i < r.len()
        invariant
            ranges_hold(s@, r@, ps),
            i <= r.len(),
            forall|j: int| 0 <= j < i ==> #[trigger] piece_ok(k, ps[j]),
        decreases r.len() - i,
    {
        let (lo, hi) = r[i];
        if !piece_ok_range(s, lo, hi, k) {
            return false;
        }
        i = i + 1;
    }
    true
}

/// The ranges `r` of `chars` hold decimal digits denoting `vals`, in order.
pub open spec fn numbers_held(chars: Seq<char>, r: Seq<(usize, usize)>, vals: Seq<nat>) -> bool {
    &&& r.len() == vals.len()
    &&& forall|i: int|
        0 <= i < r.len() ==> (#[trigger] r[i]).0 <= r[i].1 <= chars.len() && all_digits(
            chars.subrange(r[i].0 as int, r[i].1 as int),
        ) && digits_value(chars.subrange(r[i].0 as int, r[i].1 as int)) == vals[i]
}

/// The digits of the pieces of `s[lo..hi]` that parse as a `u32`.
fn loose_ranges(s: &Vec<char>, lo: usize, hi: usize) -> (r: Vec<(usize, usize)>)
    requires
        lo <= hi <= s.len(),
    ensures
        numbers_held(s@, r@, numbers_of(split_on(s@.subrange(lo as int, hi as int), '.'))),
{
    let ghost ps = split_on(s@.subrange(lo as int, hi as int), '.');
    let parts = split_ranges(s, lo, hi, '.');
    let mut out: Vec<(usize, usize)> = Vec::new();
    let mut k: usize = 0;
    assert(ps.take(0) =~= Seq::<Seq<char>>::empty());
    while k < parts.len()
        invariant
            parts.len() == ps.len(),
            ps == split_on(s@.subrange(lo as int, hi as int), '.'),
            forall|i: int|
                0 <= i < parts.len() ==> lo <= (#[trigger] parts@[i]).0 <= parts@[i].1 <= hi
                    && s@.subrange(parts@[i].0 as int, parts@[i].1 as int) == ps[i],
            hi <= s.len(),
            k <= parts.len(),
            numbers_held(s@, out@, numbers_of(ps.take(k as int))),
        decreases parts.len() - k,
    {
        let (a, b) = parts[k];
        let ghost prev = numbers_of(ps.take(k as int));
        proof {
            assert(ps.take(k + 1).drop_last() =~= ps.take(k as int));
            assert(ps.take(k + 1).last() == ps[k as int]);
        }
        if let Some(_) = parse_u32(s, a, b) {
            let st = if a < b && s[a] == '+' { a + 1 } else { a };
            proof {
                let p = s@.subrange(a as int, b as int);
                assert(s@.subrange(st as int, b as int) =~= (if p.len() > 0 && p[0] == '+' {
                    p.drop_first()
                } else {
                    p
                }));
            }
            out.push((st, b));
            proof {
                assert forall|i: int| 0 <= i < out.len() implies (#[trigger] out@[i]).0 <= out@[i].1
                    <= s@.len() && all_digits(s@.subrange(out@[i].0 as int, out@[i].1 as int))
                    && digits_value(s@.subrange(out@[i].0 as int, out@[i].1 as int)) == numbers_of(
                    ps.take(k + 1),
                )[i] by {
                    if i < out.len() - 1 {
                        assert(numbers_of(ps.take(k + 1))[i] == prev[i]);
                    }
                }
            }
        }
        k = k + 1;
    }
    assert(ps.take(parts.len() as int) =~= ps);
    out
}

/// A version string, with the digits of its release numbers and the places
/// of its pre-release identifiers.
pub struct Version {
    pub chars: Vec<char>,
    pub nums: Vec<(usize, usize)>,
    pub pre: Option<Vec<(usize, usize)>>,
}

/// The ranges `r` of `chars` hold the pieces `parts`, in order.
pub open spec fn ranges_hold(chars: Seq<char>, r: Seq<(usize, usize)>, parts: Seq<Seq<char>>) -> bool {
    &&& r.len() == parts.len()
    &&& forall|i: int|
        0 <= i < r.len() ==> (#[trigger] r[i]).0 <= r[i].1 <= chars.len() && chars.subrange(
            r[i].0 as int,
            r[i].1 as int,
        ) == parts[i]
}

impl Version {
    /// This is how the string `s` reads.
    pub open spec fn reads(self, s: Seq<char>) -> bool {
        &&& numbers_held(self.chars@, self.nums@, release_numbers(s))
        &&& match self.pre {
            None => pre_ids(s) is None,
            Some(p) => pre_ids(s) matches Some(q) && ranges_hold(self.chars@, p@, q),
        }
    }
}

/// Reads the version string `s`: as a semantic version where it is one, else
/// by the pieces that parse as a `u32`.
pub fn parse_version(s: &str) -> (v: Version)
    ensures
        v.reads(s@),
{
    let cs = chars_of(s);
    let n = cs.len();
    let mut i: usize = 0;
    assert(cs@.skip(0) =~= cs@);
    while i < n && cs[i] == 'v'
        invariant
            cs@ == s@,
            n == cs.len(),
            i <= n,
            trim_v(s@) == trim_v(cs@.skip(i as int)),
        decreases n - i,
    {
        assert(cs@.skip(i as int).drop_first() =~= cs@.skip(i + 1));
        i = i + 1;
    }
    let ghost t = cs@.skip(i as int);
    assert(trim_v(t) == t);
    assert(cs@.subrange(i as int, n as int) =~= t);
    let plus = first_char(&cs, '+', i, n);
    let ghost m = main_text(s@);
    assert(m =~= cs@.subrange(i as int, plus as int));
    let dash = first_char(&cs, '-', i, plus);
    assert(m.take(first_index(m, '-')) =~= cs@.subrange(i as int, dash as int));
    let core = split_ranges(&cs, i, dash, '.');
    let pre = if dash < plus {
        assert(m.skip(dash - i + 1) =~= cs@.subrange(dash + 1, plus as int));
        Some(split_ranges(&cs, dash + 1, plus, '.'))
    } else {
        None
    };
    let build = if plus < n {
        assert(t.skip(plus - i + 1) =~= cs@.subrange(plus + 1, n as int));
        Some(split_ranges(&cs, plus + 1, n, '.'))
    } else {
        None
    };
    let mut ok = core.len() == 3 && pieces_ok_ranges(&cs, &core, Piece::Core, Ghost(core_parts(s@)));
    if ok {
        if let Some(p) = &pre {
            ok = pieces_ok_ranges(&cs, p, Piece::Pre, Ghost(pre_release(s@)->0));
        }
    }
    if ok {
        if let Some(b) = &build {
            ok = pieces_ok_ranges(&cs, b, Piece::Build, Ghost(build_ids(s@)->0));
        }
    }
    assert(ok == is_semver(s@));
    if ok {
        proof {
            let cp = core_parts(s@);
            assert forall|j: int| 0 <= j < core.len() implies (#[trigger] core@[j]).0 <= core@[j].1
                <= cs@.len() && all_digits(cs@.subrange(core@[j].0 as int, core@[j].1 as int))
                && digits_value(cs@.subrange(core@[j].0 as int, core@[j].1 as int))
                == semver_numbers(s@)[j] by {
                assert(piece_ok(Piece::Core, cp[j]));
            }
        }
        Version { chars: cs, nums: core, pre }
    } else {
        let nums = loose_ranges(&cs, i, n);
        Version { chars: cs, nums, pre: None }
    }
}

/// The range of the digits of release number `i` of `v` (an empty range for
/// a missing number).
fn number_range(v: &Version, i: usize, Ghost(vals): Ghost<Seq<nat>>) -> (r: (usize, usize))
    requires
        numbers_held(v.chars@, v.nums@, vals),
    ensures
        r.0 <= r.1 <= v.chars.len(),
        all_digits(v.chars@.subrange(r.0 as int, r.1 as int)),
        digits_value(v.chars@.subrange(r.0 as int, r.1 as int)) == number_at(vals, i as int),
{
    if i < v.nums.len() {
        v.nums[i]
    } else {
        assert(v.chars@.subrange(0, 0) =~= Seq::<char>::empty());
        (0, 0)
    }
}

/// The precedence of `a` against `b`, which read as the strings `sa` and `sb`.
fn order_versions(a: &Version, b: &Version, Ghost(sa): Ghost<Seq<char>>, Ghost(sb): Ghost<Seq<char>>) -> (r: i8)
    requires
        a.reads(sa),
        b.reads(sb),
    ensures
        r as int == version_order(sa, sb),
{
    let ghost pa = release_numbers(sa);
    let ghost pb = release_numbers(sb);
    let n = if a.nums.len() > b.nums.len() { a.nums.len() } else { b.nums.len() };
    let mut k: usize = 0;
    while k < n
        invariant
            a.reads(sa),
            b.reads(sb),
            pa == release_numbers(sa),
            pb == release_numbers(sb),
            n == if a.nums.len() > b.nums.len() { a.nums.len() } else { b.nums.len() },
            k <= n,
            numbers_order_from(pa, pb, 0) == numbers_order_from(pa, pb, k as int),
        decreases n - k,
    {
        let (alo, ahi) = number_range(a, k, Ghost(pa));
        let (blo, bhi) = number_range(b, k, Ghost(pb));
        let c = num_order(&a.chars, alo, ahi, &b.chars, blo, bhi);
        if c != 0 {
            return c;
        }
        k = k + 1;
    }
    match (&a.pre, &b.pre) {
        (None, None) => 0,
        (None, Some(_)) => 1,
        (Some(_), None) => -1,
        (Some(p), Some(q)) => {
            let ghost ip = pre_ids(sa)->0;
            let ghost iq = pre_ids(sb)->0;
            let m = if p.len() > q.len() { p.len() } else { q.len() };
            let mut j: usize = 0;
            assert(numbers_order_from(pa, pb, k as int) == 0);
            assert(version_order(sa, sb) == pre_order_from(ip, iq, 0));
            while j < m
                invariant
                    version_order(sa, sb) == pre_order_from(ip, iq, 0),
                    ranges_hold(a.chars@, p@, ip),
                    ranges_hold(b.chars@, q@, iq),
                    m == if p.len() > q.len() { p.len() } else { q.len() },
                    j <= m,
                    pre_order_from(ip, iq, 0) == pre_order_from(ip, iq, j as int),
                decreases m - j,
            {
                if j >= p.len() {
                    return -1;
                }
                if j >= q.len() {
                    return 1;
                }
                let (alo, ahi) = p[j];
                let (blo, bhi) = q[j];
                let c = ident_order_ranges(&a.chars, alo, ahi, &b.chars, blo, bhi);
                if c != 0 {
                    return c;
                }
                j = j + 1;
            }
            0
        },
    }
}

/// Whether version `remote` has a higher precedence than version `current`.
pub fn version_newer(remote: &str, current: &str) -> (b: bool)
    ensures
        b == (version_order(remote@, current@) > 0),
{
    let a = parse_version(remote);
    let c = parse_version(current);
    order_versions(&a, &c, Ghost(remote@), Ghost(current@)) > 0
}

// ---------------------------------------------------------------------------
// Laws of precedence
// ---------------------------------------------------------------------------

/// `z` orders like a composition of `x` and `y`: if neither step goes down,
/// the whole does not go down, and it goes up where a step does.
pub open spec fn chains(x: int, y: int, z: int) -> bool {
    &&& (x >= 0 && y >= 0 ==> z >= 0)
    &&& (x >= 0 && y >= 0 && (x > 0 || y > 0) ==> z > 0)
}

proof fn lemma_text_order_antisymmetric(a: Seq<char>, b: Seq<char>)
    ensures
        text_order(b, a) == -text_order(a, b),
{
    if a != b {
        lemma_text_less_total(a, b);
        if text_less(a, b) && text_less(b, a) {
            lemma_text_less_transitive(a, b, a);
            lemma_text_less_irreflexive(a);
        }
    }
}

proof fn lemma_text_order_chains(a: Seq<char>, b: Seq<char>, c: Seq<char>)
    ensures
        chains(text_order(a, b), text_order(b, c), text_order(a, c)),
{
    lemma_text_order_antisymmetric(a, b);
    lemma_text_order_antisymmetric(b, c);
    lemma_text_order_antisymmetric(a, c);
    if text_less(b, a) && text_less(c, b) {
        lemma_text_less_transitive(c, b, a);
    }
    if a == c && a != b {
        lemma_text_order_antisymmetric(a, b);
    }
}

proof fn lemma_ident_order_chains(a: Seq<char>, b: Seq<char>, c: Seq<char>)
    ensures
        chains(ident_order(a, b), ident_order(b, c), ident_order(a, c)),
        ident_order(b, a) == -ident_order(a, b),
        ident_order(a, a) == 0,
{
    lemma_text_order_chains(a, b, c);
    lemma_text_order_antisymmetric(a, b);
}

proof fn lemma_numbers_order_antisymmetric(a: Seq<nat>, b: Seq<nat>, i: int)
    ensures
        numbers_order_from(b, a, i) == -numbers_order_from(a, b, i),
    decreases a.len() + b.len() - i,
{
    if !(i < 0 || (i >= a.len() && i >= b.len())) {
        lemma_numbers_order_antisymmetric(a, b, i + 1);
    }
}

proof fn lemma_numbers_order_chains(a: Seq<nat>, b: Seq<nat>, c: Seq<nat>, i: int)
    requires
        i >= 0,
    ensures
        chains(numbers_order_from(a, b, i), numbers_order_from(b, c, i), numbers_order_from(a, c, i)),
    decreases a.len() + b.len() + c.len() - i,
{
    if i < a.len() || i < b.len() || i < c.len() {
        lemma_numbers_order_chains(a, b, c, i + 1);
    }
}

proof fn lemma_pre_order_antisymmetric(p: Seq<Seq<char>>, q: Seq<Seq<char>>, i: int)
    ensures
        pre_order_from(q, p, i) == -pre_order_from(p, q, i),
    decreases p.len() + q.len() - i,
{
    if !(i < 0 || (i >= p.len() && i >= q.len())) {
        lemma_pre_order_antisymmetric(p, q, i + 1);
        if i < p.len() && i < q.len() {
            lemma_ident_order_chains(p[i], q[i], q[i]);
        }
    }
}

proof fn lemma_pre_order_chains(p: Seq<Seq<char>>, q: Seq<Seq<char>>, r: Seq<Seq<char>>, i: int)
    requires
        i >= 0,
    ensures
        chains(pre_order_from(p, q, i), pre_order_from(q, r, i), pre_order_from(p, r, i)),
    decreases p.len() + q.len() + r.len() - i,
{
    if i < p.len() || i < q.len() || i < r.len() {
        lemma_pre_order_chains(p, q, r, i + 1);
        if i < p.len() && i < q.len() && i < r.len() {
            lemma_ident_order_chains(p[i], q[i], r[i]);
        }
    }
}

/// Precedence is antisymmetric, and every version has the precedence of itself.
pub proof fn lemma_version_order_antisymmetric(a: Seq<char>, b: Seq<char>)
    ensures
        version_order(b, a) == -version_order(a, b),
        version_order(a, a) == 0,
{
    lemma_numbers_order_antisymmetric(release_numbers(a), release_numbers(b), 0);
    lemma_numbers_order_antisymmetric(release_numbers(a), release_numbers(a), 0);
    if let (Some(p), Some(q)) = (pre_ids(a), pre_ids(b)) {
        lemma_pre_order_antisymmetric(p, q, 0);
    }
    if let Some(p) = pre_ids(a) {
        lemma_pre_order_antisymmetric(p, p, 0);
    }
}

/// Precedence chains: of `a` over `b` and `b` over `c`, `a` over `c`.
pub proof fn lemma_version_order_chains(a: Seq<char>, b: Seq<char>, c: Seq<char>)
    ensures
        chains(version_order(a, b), version_order(b, c), version_order(a, c)),
{
    lemma_numbers_order_chains(release_numbers(a), release_numbers(b), release_numbers(c), 0);
    if let (Some(p), Some(q), Some(r)) = (pre_ids(a), pre_ids(b), pre_ids(c)) {
        lemma_pre_order_chains(p, q, r, 0);
    }
}

/// A leading `v` does not change the version a string names.
pub proof fn lemma_leading_v_ignored(s: Seq<char>)
    ensures
        release_numbers(seq!['v'] + s) == release_numbers(s),
        pre_ids(seq!['v'] + s) == pre_ids(s),
{
    assert((seq!['v'] + s).drop_first() =~= s);
    assert(trim_v(seq!['v'] + s) == trim_v(s));
}

/// A missing release number counts as 0: appending a zero to one side
/// changes no comparison of release numbers.
pub proof fn lemma_missing_number_is_zero(a: Seq<nat>, b: Seq<nat>, i: int)
    requires
        i >= 0,
    ensures
        numbers_order_from(a.push(0), b, i) == numbers_order_from(a, b, i),
    decreases a.len() + 1 + b.len() - i,
{
    assert(number_at(a.push(0), i) == number_at(a, i));
    if i < a.len() + 1 || i < b.len() {
        lemma_missing_number_is_zero(a, b, i + 1);
    }
}

/// A piece that does not parse as a `u32` is skipped: in a string that is not
/// a semantic version, it leaves the release numbers as they are.
pub proof fn lemma_loose_piece_skipped(parts: Seq<Seq<char>>, p: Seq<char>)
    requires
        parse_u32_spec(p) is None,
    ensures
        numbers_of(parts.push(p)) == numbers_of(parts),
{
    assert(parts.push(p).drop_last() =~= parts);
}

} // verus!
