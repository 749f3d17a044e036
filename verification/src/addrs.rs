//! IPv4 addresses in dotted-decimal form, and the broadcast addresses that
//! the interface listing of `ifconfig` reports.
use vstd::prelude::*;

use crate::text::{
    all_digits, chars_of, digits_value, find, find_from, first_word, first_word_range, is_digit,
    lemma_split_nonempty, lemma_split_step, parse_u32, parse_u32_spec, split_on,
};

use crate::ui::{decimal, ipv4_text_spec, lemma_decimal_denotes};

verus! {

/// The limited broadcast address 255.255.255.255.
pub const LIMITED_BROADCAST: u32 = 0xffff_ffff;

// ---------------------------------------------------------------------------
// Specifications
// ---------------------------------------------------------------------------

/// One component of a dotted-decimal address: decimal digits without a
/// leading zero (octal-looking forms are refused), at most 255.
pub open spec fn octet_spec(f: Seq<char>) -> Option<u8> {
    if f.len() > 0 && all_digits(f) && (f.len() == 1 || f[0] != '0') && digits_value(f) <= 255 {
        Some(digits_value(f) as u8)
    } else {
        None
    }
}

pub open spec fn octets_ok(fs: Seq<Seq<char>>) -> bool {
    forall|i: int| 0 <= i < fs.len() ==> (#[trigger] octet_spec(fs[i])) is Some
}

/// The number that the components `fs` denote, most significant first.
pub open spec fn octets_value(fs: Seq<Seq<char>>) -> nat
    decreases fs.len(),
{
    if fs.len() == 0 {
        0
    } else {
        octets_value(fs.drop_last()) * 256 + octet_spec(fs.last()).unwrap() as nat
    }
}

/// What `s.parse::<Ipv4Addr>()` accepts, as the address's 32-bit value:
/// four components separated by dots.
pub open spec fn parse_ipv4_spec(s: Seq<char>) -> Option<u32> {
    let fs = split_on(s, '.');
    if fs.len() == 4 && octets_ok(fs) {
        Some(octets_value(fs) as u32)
    } else {
        None
    }
}

/// The broadcast address that one line of the interface listing announces:
/// the word after the first `broadcast `, where it is an IPv4 address.
pub open spec fn line_broadcast(line: Seq<char>) -> Option<u32> {
    match find_from(line, "broadcast "@, 0) {
        None => None,
        Some(i) => parse_ipv4_spec(first_word(line.skip(i + "broadcast "@.len()))),
    }
}

/// `acc` with `x` added at the end, unless it is already there.
pub open spec fn push_unique(acc: Seq<u32>, x: u32) -> Seq<u32> {
    if acc.contains(x) {
        acc
    } else {
        acc.push(x)
    }
}

/// The addresses found in `lines`, after the limited broadcast address, each
/// once, in the order of first appearance.
pub open spec fn addrs_from(lines: Seq<Seq<char>>) -> Seq<u32>
    decreases lines.len(),
{
    if lines.len() == 0 {
        seq![LIMITED_BROADCAST]
    } else {
        let acc = addrs_from(lines.drop_last());
        match line_broadcast(lines.last()) {
            Some(ip) => push_unique(acc, ip),
            None => acc,
        }
    }
}

/// The broadcast addresses to announce on, given the text of an interface
/// listing. Lines are split at `\n`; a trailing `\r` cannot change what a
/// line yields, as it is whitespace.
pub open spec fn broadcast_addrs_spec(text: Seq<char>) -> Seq<u32> {
    addrs_from(split_on(text, '\n'))
}

// ---------------------------------------------------------------------------
// Executable functions
// ---------------------------------------------------------------------------

/// Parses one component `s[lo..hi]` of a dotted-decimal address.
pub fn parse_octet(s: &Vec<char>, lo: usize, hi: usize) -> (r: Option<u8>)
    requires
        lo <= hi <= s.len(),
    ensures
        r == octet_spec(s@.subrange(lo as int, hi as int)),
{
    let ghost f = s@.subrange(lo as int, hi as int);
    if lo == hi {
        return None;
    }
    let c = s[lo];
    if !('0' <= c && c <= '9') {
        assert(!is_digit(f[0]));
        return None;
    }
    let v = parse_u32(s, lo, hi);
    assert(f[0] != '+');
    match v {
        None => None,
        Some(x) => {
            if x > 255 {
                None
            } else if hi - lo > 1 && c == '0' {
                None
            } else {
                Some(x as u8)
            }
        },
    }
}

/// Parses `s[lo..hi]` as a dotted-decimal IPv4 address.
pub fn parse_ipv4(s: &Vec<char>, lo: usize, hi: usize) -> (r: Option<u32>)
    requires
        lo <= hi <= s.len(),
    ensures
        r == parse_ipv4_spec(s@.subrange(lo as int, hi as int)),
{
    let ghost t = s@.subrange(lo as int, hi as int);
    let mut count: usize = 0;
    let mut acc: u64 = 0;
    let mut start = lo;
    let mut j = lo;
    proof {
        assert(t.take(0) =~= Seq::<char>::empty());
        assert(s@.subrange(start as int, j as int) =~= Seq::<char>::empty());
        assert(split_on(t.take(0), '.').drop_last() =~= Seq::<Seq<char>>::empty());
    }
    while j < hi
        invariant
            lo <= start <= j <= hi <= s.len(),
            t == s@.subrange(lo as int, hi as int),
            count <= 3,
            split_on(t.take(j - lo), '.').len() == count + 1,
            octets_ok(split_on(t.take(j - lo), '.').drop_last()),
            acc == octets_value(split_on(t.take(j - lo), '.').drop_last()),
            acc < (if count == 0 {
                1int
            } else if count == 1 {
                256int
            } else if count == 2 {
                65536int
            } else {
                16777216int
            }),
            split_on(t.take(j - lo), '.').last() == s@.subrange(start as int, j as int),
        decreases hi - j,
    {
        let ghost before = split_on(t.take(j - lo), '.');
        proof {
            lemma_split_step(t, '.', j - lo);
        }
        let ghost after = split_on(t.take(j + 1 - lo), '.');
        if s[j] == '.' {
            let o = parse_octet(s, start, j);
            proof {
                assert(after.drop_last() =~= before);
                assert(after.last() =~= Seq::<char>::empty());
                assert(s@.subrange(j + 1, j + 1) =~= Seq::<char>::empty());
                assert(before.drop_last().push(before.last()) =~= before);
            }
            match o {
                None => {
                    proof {
                        lemma_fields_after_bad(t, (j + 1 - lo) as int, count as int);
                    }
                    return None;
                },
                Some(x) => {
                    if count == 3 {
                        proof {
                            lemma_split_len_grows(t, (j + 1 - lo) as int);
                        }
                        return None;
                    }
                    proof {
                        assert forall|i: int| 0 <= i < after.drop_last().len() implies (
                        #[trigger] octet_spec(after.drop_last()[i])) is Some by {
                            if i < count {
                                assert(after.drop_last()[i] == before.drop_last()[i]);
                            }
                        }
                    }
                    acc = acc * 256 + x as u64;
                    count = count + 1;
                },
            }
            start = j + 1;
        } else {
            proof {
                assert(after.drop_last() =~= before.drop_last());
                assert(s@.subrange(start as int, j + 1) =~= s@.subrange(
                    start as int,
                    j as int,
                ).push(s@[j as int]));
            }
        }
        j = j + 1;
    }
    proof {
        assert(t.take(hi - lo) =~= t);
    }
    let ghost fs = split_on(t, '.');
    if count != 3 {
        return None;
    }
    let o = parse_octet(s, start, hi);
    match o {
        None => {
            assert(!(octet_spec(fs[3]) is Some));
            None
        },
        Some(x) => {
            proof {
                assert(fs.drop_last().push(fs.last()) =~= fs);
                assert forall|i: int| 0 <= i < fs.len() implies (#[trigger] octet_spec(
                    fs[i],
                )) is Some by {
                    if i < 3 {
                        assert(fs[i] == fs.drop_last()[i]);
                    }
                }
            }
            Some((acc * 256 + x as u64) as u32)
        },
    }
}

/// A piece that is not a valid component keeps the whole from parsing.
proof fn lemma_fields_after_bad(t: Seq<char>, k: int, count: int)
    requires
        0 < k <= t.len(),
        0 <= count,
        t[k - 1] == '.',
        split_on(t.take(k), '.').len() == count + 2,
        !(octet_spec(split_on(t.take(k), '.')[count]) is Some),
    ensures
        parse_ipv4_spec(t) is None,
{
    lemma_split_prefix(t, k);
    let fs = split_on(t, '.');
    assert(fs[count] == split_on(t.take(k), '.')[count]);
    if fs.len() == 4 && octets_ok(fs) {
        assert((octet_spec(fs[count])) is Some);
    }
}

/// The pieces of a prefix ending in the separator are pieces of the whole.
proof fn lemma_split_prefix(t: Seq<char>, k: int)
    requires
        0 <= k <= t.len(),
    ensures
        split_on(t, '.').len() >= split_on(t.take(k), '.').len(),
        forall|i: int|
            0 <= i < split_on(t.take(k), '.').len() - 1 ==> #[trigger] split_on(t, '.')[i]
                == split_on(t.take(k), '.')[i],
    decreases t.len() - k,
{
    if k < t.len() {
        lemma_split_step(t, '.', k);
        lemma_split_prefix(t, k + 1);
        lemma_split_nonempty(t.take(k), '.');
    } else {
        assert(t.take(k) =~= t);
    }
}

/// Splitting never loses pieces as the input grows.
proof fn lemma_split_len_grows(t: Seq<char>, k: int)
    requires
        0 <= k <= t.len(),
    ensures
        split_on(t, '.').len() >= split_on(t.take(k), '.').len(),
{
    lemma_split_prefix(t, k);
}


/// The broadcast address that the line `line` announces, if any.
pub fn line_broadcast_addr(line: &Vec<char>) -> (r: Option<u32>)
    ensures
        r == line_broadcast(line@),
{
    let marker = chars_of("broadcast ");
    let n = line.len();
    match find(line, &marker, 0) {
        None => None,
        Some(i) => {
            proof {
                crate::text::lemma_find_from_found(line@, marker@, 0, i as int);
            }
            let from = i + marker.len();
            let (a, b) = first_word_range(line, from, n);
            proof {
                assert(line@.subrange(from as int, n as int) =~= line@.skip(from as int));
            }
            parse_ipv4(line, a, b)
        },
    }
}

/// Adds `x` to `acc` unless it is already there.
pub fn add_unique(acc: &mut Vec<u32>, x: u32)
    ensures
        final(acc)@ == push_unique(old(acc)@, x),
{
    let mut i: usize = 0;
    while i < acc.len()
        invariant
            i <= acc.len(),
            forall|j: int| 0 <= j < i ==> acc@[j] != x,
        decreases acc.len() - i,
    {
        if acc[i] == x {
            assert(acc@.contains(x));
            return;
        }
        i = i + 1;
    }
    assert(!acc@.contains(x));
    acc.push(x);
}

/// The addresses to send discovery broadcasts to, given the text of the
/// interface listing: the limited broadcast address, then every subnet
/// broadcast address that a line names, each once.
pub fn broadcast_addrs(text: &str) -> (r: Vec<u32>)
    ensures
        r@ == broadcast_addrs_spec(text@),
{
    let cs = chars_of(text);
    let n = cs.len();
    let mut out: Vec<u32> = Vec::new();
    out.push(LIMITED_BROADCAST);
    let mut line: Vec<char> = Vec::new();
    let mut j: usize = 0;
    proof {
        assert(cs@.take(0) =~= Seq::<char>::empty());
        assert(split_on(cs@.take(0), '\n').drop_last() =~= Seq::<Seq<char>>::empty());
        assert(out@ =~= seq![LIMITED_BROADCAST]);
    }
    while j < n
        invariant
            cs@ == text@,
            n == cs.len(),
            j <= n,
            split_on(cs@.take(j as int), '\n').len() >= 1,
            out@ == addrs_from(split_on(cs@.take(j as int), '\n').drop_last()),
            line@ == split_on(cs@.take(j as int), '\n').last(),
        decreases n - j,
    {
        let ghost before = split_on(cs@.take(j as int), '\n');
        proof {
            lemma_split_step(cs@, '\n', j as int);
        }
        let ghost after = split_on(cs@.take(j + 1), '\n');
        if cs[j] == '\n' {
            match line_broadcast_addr(&line) {
                Some(ip) => add_unique(&mut out, ip),
                None => {},
            }
            proof {
                assert(after.drop_last() =~= before);
                assert(after.last() =~= Seq::<char>::empty());
                lemma_split_nonempty(cs@.take(j as int), '\n');
            }
            line = Vec::new();
        } else {
            line.push(cs[j]);
            proof {
                assert(after.drop_last() =~= before.drop_last());
            }
        }
        j = j + 1;
    }
    match line_broadcast_addr(&line) {
        Some(ip) => add_unique(&mut out, ip),
        None => {},
    }
    proof {
        assert(cs@.take(n as int) =~= cs@);
        lemma_split_nonempty(cs@, '\n');
    }
    out
}

// ---------------------------------------------------------------------------
// Laws
// ---------------------------------------------------------------------------

/// The list starts with the limited broadcast address and names no address
/// twice.
pub proof fn lemma_broadcast_addrs_shape(lines: Seq<Seq<char>>)
    ensures
        addrs_from(lines).len() >= 1,
        addrs_from(lines)[0] == LIMITED_BROADCAST,
        addrs_from(lines).no_duplicates(),
    decreases lines.len(),
{
    if lines.len() > 0 {
        lemma_broadcast_addrs_shape(lines.drop_last());
    }
}

/// Every subnet address that some line names is in the list.
pub proof fn lemma_broadcast_addrs_complete(lines: Seq<Seq<char>>, i: int)
    requires
        0 <= i < lines.len(),
        line_broadcast(lines[i]) is Some,
    ensures
        addrs_from(lines).contains(line_broadcast(lines[i]).unwrap()),
    decreases lines.len(),
{
    let acc = addrs_from(lines.drop_last());
    if i < lines.len() - 1 {
        lemma_broadcast_addrs_complete(lines.drop_last(), i);
        assert(lines.drop_last()[i] == lines[i]);
        let x = line_broadcast(lines[i]).unwrap();
        let k = choose|k: int| 0 <= k < acc.len() && acc[k] == x;
        match line_broadcast(lines.last()) {
            Some(ip) => {
                assert(push_unique(acc, ip)[k] == x);
            },
            None => {},
        }
    } else {
        let ip = line_broadcast(lines.last()).unwrap();
        if !acc.contains(ip) {
            assert(acc.push(ip)[acc.len() as int] == ip);
        }
    }
}

/// Every address after the first was named by some line.
pub proof fn lemma_broadcast_addrs_sound(lines: Seq<Seq<char>>, j: int)
    requires
        1 <= j < addrs_from(lines).len(),
    ensures
        exists|i: int|
            0 <= i < lines.len() && line_broadcast(#[trigger] lines[i]) == Some(addrs_from(lines)[j]),
    decreases lines.len(),
{
    let acc = addrs_from(lines.drop_last());
    if j < acc.len() {
        match line_broadcast(lines.last()) {
            Some(ip) => {
                assert(addrs_from(lines)[j] == acc[j]);
            },
            None => {},
        }
        lemma_broadcast_addrs_sound(lines.drop_last(), j);
        let i = choose|i: int|
            0 <= i < lines.drop_last().len() && line_broadcast(#[trigger] lines.drop_last()[i])
                == Some(acc[j]);
        assert(lines.drop_last()[i] == lines[i]);
    } else {
        assert(line_broadcast(lines[lines.len() - 1]) == Some(addrs_from(lines)[j]));
    }
}

/// A piece without the separator is split into itself alone.
proof fn lemma_split_single(p: Seq<char>, sep: char)
    requires
        forall|i: int| 0 <= i < p.len() ==> p[i] != sep,
    ensures
        split_on(p, sep) == seq![p],
    decreases p.len(),
{
    if p.len() > 0 {
        lemma_split_single(p.drop_last(), sep);
        assert(p.drop_last().push(p.last()) =~= p);
        assert(seq![p.drop_last()].update(0, p.drop_last().push(p.last())) =~= seq![p]);
    } else {
        assert(p =~= Seq::<char>::empty());
    }
}

/// Appending the separator and a piece without it adds that piece.
proof fn lemma_split_append(s: Seq<char>, sep: char, p: Seq<char>)
    requires
        forall|i: int| 0 <= i < p.len() ==> p[i] != sep,
    ensures
        split_on(s + seq![sep] + p, sep) == split_on(s, sep).push(p),
    decreases p.len(),
{
    let q = s + seq![sep] + p;
    if p.len() == 0 {
        assert(q.drop_last() =~= s);
        assert(p =~= Seq::<char>::empty());
    } else {
        lemma_split_append(s, sep, p.drop_last());
        assert(q.drop_last() =~= s + seq![sep] + p.drop_last());
        lemma_split_nonempty(s, sep);
        let f = split_on(s, sep).push(p.drop_last());
        assert(p.drop_last().push(p.last()) =~= p);
        assert(q.last() == p.last());
        assert(f.update(f.len() - 1, f.last().push(p.last())) =~= split_on(s, sep).push(p));
    }
}

/// The decimal text of a number up to 255 is a valid component.
proof fn lemma_decimal_octet(n: nat)
    requires
        n <= 255,
    ensures
        octet_spec(decimal(n)) == Some(n as u8),
        forall|i: int| 0 <= i < decimal(n).len() ==> decimal(n)[i] != '.',
{
    lemma_decimal_denotes(n);
    assert forall|i: int| 0 <= i < decimal(n).len() implies decimal(n)[i] != '.' by {
        assert(is_digit(decimal(n)[i]));
    }
}

/// The address text shown for `ip` reads back as `ip`.
pub proof fn lemma_ipv4_text_parses(ip: u32)
    ensures
        parse_ipv4_spec(ipv4_text_spec(ip)) == Some(ip),
{
    reveal_strlit(".");
    let n0 = (ip / 0x100_0000) as nat;
    let n1 = ((ip / 0x1_0000) % 256) as nat;
    let n2 = ((ip / 0x100) % 256) as nat;
    let n3 = (ip % 256) as nat;
    assert(n0 <= 255);
    lemma_decimal_octet(n0);
    lemma_decimal_octet(n1);
    lemma_decimal_octet(n2);
    lemma_decimal_octet(n3);
    let d0 = decimal(n0);
    let d1 = decimal(n1);
    let d2 = decimal(n2);
    let d3 = decimal(n3);
    let dot = seq!['.'];
    assert("."@ =~= dot);
    assert(ipv4_text_spec(ip) =~= d0 + dot + d1 + dot + d2 + dot + d3);
    lemma_split_single(d0, '.');
    lemma_split_append(d0, '.', d1);
    lemma_split_append(d0 + dot + d1, '.', d2);
    lemma_split_append(d0 + dot + d1 + dot + d2, '.', d3);
    let fs = split_on(ipv4_text_spec(ip), '.');
    assert(fs =~= seq![d0, d1, d2, d3]);
    assert(octets_ok(fs));
    assert(seq![d0].drop_last() =~= Seq::<Seq<char>>::empty());
    assert(seq![d0].last() == d0);
    assert(octets_value(Seq::<Seq<char>>::empty()) == 0);
    assert(octet_spec(d0).unwrap() as nat == n0);
    assert(octets_value(seq![d0]) == n0);
    assert(seq![d0, d1].drop_last() =~= seq![d0]);
    assert(octets_value(seq![d0, d1]) == n0 * 256 + n1);
    assert(seq![d0, d1, d2].drop_last() =~= seq![d0, d1]);
    assert(octets_value(seq![d0, d1, d2]) == (n0 * 256 + n1) * 256 + n2);
    assert(fs.drop_last() =~= seq![d0, d1, d2]);
    assert(octets_value(fs) == ((n0 * 256 + n1) * 256 + n2) * 256 + n3);
    assert(((n0 * 256 + n1) * 256 + n2) * 256 + n3 == ip) by (nonlinear_arith)
        requires
            n0 == ip / 0x100_0000,
            n1 == (ip / 0x1_0000) % 256,
            n2 == (ip / 0x100) % 256,
            n3 == ip % 256,
    ;
}

} // verus!
