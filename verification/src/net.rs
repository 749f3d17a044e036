//! Finding other players on the local network: when to announce ourselves,
//! the table of peers heard from recently, and the lobby's list of them.
use std::collections::HashMap;

use vstd::prelude::*;

use crate::text::chars_of;
use vstd::std_specs::iter::IteratorSpec;

verus! {

/// How long to wait between two announcements, in nanoseconds (1.5 s).
pub const ANNOUNCE_INTERVAL_NS: u64 = 1_500_000_000;

/// How long a peer stays listed without announcing itself, in nanoseconds (5 s).
pub const PEER_TIMEOUT_NS: u64 = 5_000_000_000;

/// An IPv4 socket address: the address as a 32-bit number, and a port.
#[derive(Clone, Copy, Debug, PartialEq, Eq, Structural)]
pub struct Addr {
    pub ip: u32,
    pub port: u16,
}

/// Another player that announced itself. `last_seen` is a reading of the
/// caller's monotonic clock, in nanoseconds.
#[derive(Debug)]
pub struct Peer {
    pub name: String,
    /// Where the peer's game socket listens.
    pub addr: Addr,
    pub last_seen: u64,
}

/// What we broadcast so that others can find us.
#[derive(Debug)]
pub struct Announcement {
    pub name: String,
    pub id: u64,
    pub game_port: u16,
}

/// Our identity on the network and the peers we know of.
#[derive(Debug)]
pub struct Net {
    pub name: String,
    /// Random for each run, so that we can ignore our own announcements.
    pub session_id: u64,
    /// The port of our game socket, which peers send their messages to.
    pub game_port: u16,
    pub peers: HashMap<u64, Peer>,
    /// When we last announced ourselves, if ever.
    pub last_announce: Option<u64>,
}

/// Draws a session id.
///
/// Calls `rand::random::<u64>()`, which takes a value from the thread-local
/// generator; nothing is claimed of the value. The generator is seeded from
/// the operating system and panics where the system supplies no entropy,
/// which nothing in this call's (absent) arguments decides.
#[verifier::external_body]
fn random_session_id() -> u64 {
    rand::random::<u64>()
}

// ---------------------------------------------------------------------------
// Specifications
// ---------------------------------------------------------------------------

/// Time from `earlier` to `now`, or zero when the clock reads earlier
/// (as `Instant::duration_since` saturates).
pub open spec fn elapsed(earlier: u64, now: u64) -> int {
    if now >= earlier {
        now - earlier
    } else {
        0
    }
}

pub open spec fn announce_due(last: Option<u64>, now: u64) -> bool {
    match last {
        None => true,
        Some(t) => elapsed(t, now) >= ANNOUNCE_INTERVAL_NS,
    }
}

/// A peer last heard from at `last_seen` is still listed at `now`.
pub open spec fn is_fresh(last_seen: u64, now: u64) -> bool {
    elapsed(last_seen, now) < PEER_TIMEOUT_NS
}

/// Strict lexicographic order of character sequences; for strings this is
/// the order of `str`'s `Ord`, as UTF-8 preserves the order of code points.
pub open spec fn text_less(a: Seq<char>, b: Seq<char>) -> bool
    decreases a.len(),
{
    if a.len() == 0 {
        b.len() > 0
    } else if b.len() == 0 {
        false
    } else if a[0] != b[0] {
        a[0] < b[0]
    } else {
        text_less(a.drop_first(), b.drop_first())
    }
}

/// The lobby's order: by name, and by id between equal names.
pub open spec fn entry_less(a: (u64, Peer), b: (u64, Peer)) -> bool {
    ||| text_less(a.1.name@, b.1.name@)
    ||| (a.1.name@ == b.1.name@ && a.0 < b.0)
}

/// The table `m` after peer `id` announced itself as `p`, where `own` is our
/// session id.
pub open spec fn after_announce(m: Map<u64, Peer>, own: u64, id: u64, p: Peer) -> Map<u64, Peer> {
    if id == own {
        m
    } else {
        m.insert(id, p)
    }
}

/// The peers that remain at `now` of the table `m`.
pub open spec fn fresh_peers(m: Map<u64, Peer>, now: u64) -> Map<u64, Peer> {
    Map::new(|k: u64| m.contains_key(k) && is_fresh(m[k].last_seen, now), |k: u64| m[k])
}

// ---------------------------------------------------------------------------
// Laws of the name order
// ---------------------------------------------------------------------------

pub proof fn lemma_text_less_irreflexive(a: Seq<char>)
    ensures
        !text_less(a, a),
    decreases a.len(),
{
    if a.len() > 0 {
        lemma_text_less_irreflexive(a.drop_first());
    }
}

pub proof fn lemma_text_less_transitive(a: Seq<char>, b: Seq<char>, c: Seq<char>)
    requires
        text_less(a, b),
        text_less(b, c),
    ensures
        text_less(a, c),
    decreases a.len(),
{
    if a.len() > 0 && b.len() > 0 && c.len() > 0 && a[0] == b[0] && b[0] == c[0] {
        lemma_text_less_transitive(a.drop_first(), b.drop_first(), c.drop_first());
    }
}

pub proof fn lemma_text_less_total(a: Seq<char>, b: Seq<char>)
    requires
        a != b,
    ensures
        text_less(a, b) || text_less(b, a),
    decreases a.len(),
{
    if a.len() > 0 && b.len() > 0 && a[0] == b[0] {
        if a.drop_first() == b.drop_first() {
            assert(a =~= seq![a[0]] + a.drop_first());
            assert(b =~= seq![b[0]] + b.drop_first());
        }
        lemma_text_less_total(a.drop_first(), b.drop_first());
    } else if a.len() == 0 && b.len() == 0 {
        assert(a =~= b);
    }
}

pub proof fn lemma_entry_less_transitive(a: (u64, Peer), b: (u64, Peer), c: (u64, Peer))
    requires
        entry_less(a, b),
        entry_less(b, c),
    ensures
        entry_less(a, c),
{
    if text_less(a.1.name@, b.1.name@) && text_less(b.1.name@, c.1.name@) {
        lemma_text_less_transitive(a.1.name@, b.1.name@, c.1.name@);
    }
}

pub proof fn lemma_entry_less_total(a: (u64, Peer), b: (u64, Peer))
    requires
        a.0 != b.0,
    ensures
        entry_less(a, b) || entry_less(b, a),
{
    if a.1.name@ != b.1.name@ {
        lemma_text_less_total(a.1.name@, b.1.name@);
    }
}

pub proof fn lemma_entry_less_irreflexive(a: (u64, Peer), b: (u64, Peer))
    requires
        entry_less(a, b),
    ensures
        !entry_less(b, a),
{
    lemma_text_less_irreflexive(a.1.name@);
    if text_less(a.1.name@, b.1.name@) && text_less(b.1.name@, a.1.name@) {
        lemma_text_less_transitive(a.1.name@, b.1.name@, a.1.name@);
    }
}

// ---------------------------------------------------------------------------
// Executable functions
// ---------------------------------------------------------------------------

/// Whether `a` comes before `b` in the lexicographic order of characters.
pub fn text_before(a: &str, b: &str) -> (r: bool)
    ensures
        r == text_less(a@, b@),
{
    let x = chars_of(a);
    let y = chars_of(b);
    let mut i: usize = 0;
    proof {
        assert(x@.skip(0) =~= x@);
        assert(y@.skip(0) =~= y@);
    }
    while i < x.len() && i < y.len() && x[i] == y[i]
        invariant
            x@ == a@,
            y@ == b@,
            i <= x.len(),
            i <= y.len(),
            text_less(a@, b@) == text_less(x@.skip(i as int), y@.skip(i as int)),
        decreases x.len() - i,
    {
        proof {
            assert(x@.skip(i as int).drop_first() =~= x@.skip(i + 1));
            assert(y@.skip(i as int).drop_first() =~= y@.skip(i + 1));
        }
        i = i + 1;
    }
    if i == x.len() {
        i < y.len()
    } else if i == y.len() {
        false
    } else {
        x[i] < y[i]
    }
}

impl Peer {
    /// A copy of this peer.
    pub fn duplicate(&self) -> (p: Peer)
        ensures
            p == *self,
    {
        Peer { name: self.name.clone(), addr: self.addr, last_seen: self.last_seen }
    }
}

impl Net {
    /// Starts discovery for a player called `name` whose game socket listens
    /// on `game_port`, under a fresh random session id.
    pub fn new(name: String, game_port: u16) -> (d: Net)
        ensures
            d.name == name,
            d.game_port == game_port,
            d.peers@ == Map::<u64, Peer>::empty(),
            d.last_announce is None,
    {
        let session_id = random_session_id();
        Net { name, session_id, game_port, peers: HashMap::new(), last_announce: None }
    }

    /// The announcement to broadcast at time `now`, if one is due; one is due
    /// at most every 1.5 s.
    pub fn announce(&mut self, now: u64) -> (r: Option<Announcement>)
        ensures
            r is Some <==> announce_due(old(self).last_announce, now),
            r matches Some(a) ==> {
                &&& a.name == old(self).name
                &&& a.id == old(self).session_id
                &&& a.game_port == old(self).game_port
            },
            final(self).last_announce == (if announce_due(old(self).last_announce, now) {
                Some(now)
            } else {
                old(self).last_announce
            }),
            final(self).name == old(self).name,
            final(self).session_id == old(self).session_id,
            final(self).game_port == old(self).game_port,
            final(self).peers == old(self).peers,
    {
        match self.last_announce {
            Some(t) => {
                let since = if now >= t { now - t } else { 0 };
                if since < ANNOUNCE_INTERVAL_NS {
                    return None;
                }
            },
            None => {},
        }
        self.last_announce = Some(now);
        Some(Announcement { name: self.name.clone(), id: self.session_id, game_port: self.game_port })
    }

    /// Notes that peer `id`, called `name`, announced from address `from_ip`
    /// that its game socket listens on `game_port`. Our own announcements,
    /// which carry our session id, are ignored.
    pub fn record_announce(&mut self, id: u64, name: String, from_ip: u32, game_port: u16, now: u64)
        ensures
            final(self).peers@ == after_announce(
                old(self).peers@,
                old(self).session_id,
                id,
                Peer { name, addr: Addr { ip: from_ip, port: game_port }, last_seen: now },
            ),
            final(self).name == old(self).name,
            final(self).session_id == old(self).session_id,
            final(self).game_port == old(self).game_port,
            final(self).last_announce == old(self).last_announce,
    {
        broadcast use vstd::std_specs::hash::group_hash_axioms;

        if id != self.session_id {
            self.peers.insert(
                id,
                Peer { name, addr: Addr { ip: from_ip, port: game_port }, last_seen: now },
            );
        }
    }

    /// Forgets the peers not heard from for 5 s or more at time `now`.
    pub fn prune(&mut self, now: u64)
        ensures
            final(self).peers@ == fresh_peers(old(self).peers@, now),
            final(self).name == old(self).name,
            final(self).session_id == old(self).session_id,
            final(self).game_port == old(self).game_port,
            final(self).last_announce == old(self).last_announce,
    {
        broadcast use vstd::std_specs::hash::group_hash_axioms;

        let ghost m = self.peers@;
        let mut stale: Vec<u64> = Vec::new();
        let ghost seq0 = vstd::std_specs::hash::spec_hash_map_iter(&self.peers).remaining();
        for entry in it: self.peers.iter()
            invariant
                m == self.peers@,
                self.name == old(self).name,
                self.session_id == old(self).session_id,
                self.game_port == old(self).game_port,
                self.last_announce == old(self).last_announce,
                it.seq() == seq0,
                seq0 == vstd::std_specs::hash::spec_hash_map_iter(&self.peers).remaining(),
                forall|i: int|
                    0 <= i < stale.len() ==> m.contains_key(#[trigger] stale@[i]) && !is_fresh(
                        m[stale@[i]].last_seen,
                        now,
                    ),
                forall|i: int|
                    0 <= i < it.index() && !is_fresh(#[trigger] it.seq()[i].1.last_seen, now)
                        ==> stale@.contains(*it.seq()[i].0),
        {
            let ghost idx = it.index();
            let ghost stale0 = stale@;
            assert(entry == it.seq()[idx as int]);
            let (k, p) = entry;
            let since = if now >= p.last_seen { now - p.last_seen } else { 0 };
            if since >= PEER_TIMEOUT_NS {
                stale.push(*k);
            }
            proof {
                assert forall|i: int|
                    0 <= i < idx + 1 && !is_fresh(#[trigger] seq0[i].1.last_seen, now)
                        implies stale@.contains(*seq0[i].0) by {
                    if i < idx {
                        assert(stale0.contains(*seq0[i].0));
                        let j = choose|j: int| 0 <= j < stale0.len() && stale0[j] == *seq0[i].0;
                        assert(stale@[j] == stale0[j]);
                    } else {
                        assert(stale@[stale@.len() - 1] == *k);
                    }
                }
            }
        }
        let mut i: usize = 0;
        while i < stale.len()
            invariant
                0 <= i <= stale.len(),
                self.name == old(self).name,
                self.session_id == old(self).session_id,
                self.game_port == old(self).game_port,
                self.last_announce == old(self).last_announce,
                forall|j: int|
                    0 <= j < stale.len() ==> m.contains_key(#[trigger] stale@[j]) && !is_fresh(
                        m[stale@[j]].last_seen,
                        now,
                    ),
                forall|k: u64|
                    #[trigger] self.peers@.contains_key(k) <==> (m.contains_key(k)
                        && !stale@.take(i as int).contains(k)),
                forall|k: u64| #[trigger] self.peers@.contains_key(k) ==> self.peers@[k] == m[k],
            decreases stale.len() - i,
        {
            let k = stale[i];
            self.peers.remove(&k);
            proof {
                assert(stale@.take(i + 1) =~= stale@.take(i as int).push(k));
                assert forall|k2: u64|
                    #[trigger] self.peers@.contains_key(k2) <==> (m.contains_key(k2)
                        && !stale@.take(i + 1).contains(k2)) by {
                    if k2 != k {
                        if stale@.take(i as int).push(k).contains(k2) {
                            let j = choose|j: int| 0 <= j < i + 1 && stale@.take(i as int).push(k)[j] == k2;
                            assert(stale@.take(i as int)[j] == k2);
                        }
                    } else {
                        assert(stale@.take(i as int).push(k)[i as int] == k);
                    }
                }
            }
            i = i + 1;
        }
        proof {
            assert(stale@.take(stale.len() as int) =~= stale@);
            assert(self.peers@ =~= fresh_peers(m, now)) by {
                assert forall|k: u64| #[trigger] m.contains_key(k) && !is_fresh(m[k].last_seen, now)
                    implies stale@.contains(k) by {
                    assert(seq0.contains((&k, &m[k])));
                    let j = choose|j: int| 0 <= j < seq0.len() && seq0[j] == (&k, &m[k]);
                    assert(!is_fresh(seq0[j].1.last_seen, now));
                }
            }
        }
    }
}


/// Whether entry `a` comes before entry `b` in the lobby's order.
pub fn entry_before(a: &(u64, Peer), b: &(u64, Peer)) -> (r: bool)
    ensures
        r == entry_less(*a, *b),
{
    if text_before(a.1.name.as_str(), b.1.name.as_str()) {
        true
    } else if crate::text::same_text(a.1.name.as_str(), b.1.name.as_str()) {
        a.0 < b.0
    } else {
        false
    }
}

/// `s` is strictly increasing in the lobby's order.
pub open spec fn sorted_entries(s: Seq<(u64, Peer)>) -> bool {
    forall|i: int, j: int| 0 <= i < j < s.len() ==> entry_less(#[trigger] s[i], #[trigger] s[j])
}

/// Inserts `item` into the sorted `out` at its place.
fn insert_sorted(out: &mut Vec<(u64, Peer)>, item: (u64, Peer))
    requires
        sorted_entries(old(out)@),
        forall|i: int| 0 <= i < old(out).len() ==> (#[trigger] old(out)@[i]).0 != item.0,
    ensures
        sorted_entries(final(out)@),
        exists|pos: int| 0 <= pos <= old(out).len() && final(out)@ == old(out)@.insert(pos, item),
{
    let mut pos: usize = 0;
    while pos < out.len() && entry_before(&out[pos], &item)
        invariant
            pos <= out.len(),
            forall|i: int| 0 <= i < pos ==> entry_less(#[trigger] out@[i], item),
        decreases out.len() - pos,
    {
        pos = pos + 1;
    }
    let ghost before = out@;
    if pos < out.len() {
        proof {
            lemma_entry_less_total(before[pos as int], item);
        }
    }
    out.insert(pos, item);
    proof {
        assert forall|i: int, j: int| 0 <= i < j < out@.len() implies entry_less(
            #[trigger] out@[i],
            #[trigger] out@[j],
        ) by {
            if j < pos {
                assert(out@[i] == before[i] && out@[j] == before[j]);
            } else if j == pos {
                assert(out@[i] == before[i]);
            } else if i < pos {
                assert(out@[i] == before[i] && out@[j] == before[j - 1]);
                assert(entry_less(before[i], item));
                assert(entry_less(item, before[pos as int]));
                if j - 1 > pos {
                    assert(entry_less(before[pos as int], before[j - 1]));
                    lemma_entry_less_transitive(item, before[pos as int], before[j - 1]);
                }
                lemma_entry_less_transitive(before[i], item, before[j - 1]);
            } else if i == pos {
                assert(out@[j] == before[j - 1]);
                assert(entry_less(item, before[pos as int]));
                if j - 1 > pos {
                    assert(entry_less(before[pos as int], before[j - 1]));
                    lemma_entry_less_transitive(item, before[pos as int], before[j - 1]);
                }
            } else {
                assert(out@[i] == before[i - 1] && out@[j] == before[j - 1]);
            }
        }
    }
}



/// What the map's iteration yields: each entry once.
proof fn lemma_entries_of_map(m: Map<u64, Peer>, seq0: Seq<(&u64, &Peer)>, items: Seq<(u64, Peer)>)
    requires
        seq0.no_duplicates(),
        seq0.len() == m.dom().len(),
        forall|j: int|
            0 <= j < seq0.len() ==> m.contains_key(*(#[trigger] seq0[j]).0) && m[*seq0[j].0]
                == *seq0[j].1,
        forall|k: u64| #[trigger] m.contains_key(k) ==> seq0.contains((&k, &m[k])),
        items.len() == seq0.len(),
        forall|i: int|
            0 <= i < items.len() ==> (#[trigger] items[i]).0 == *seq0[i].0 && items[i].1
                == *seq0[i].1,
    ensures
        items.len() == m.len(),
        forall|i: int|
            0 <= i < items.len() ==> m.contains_key((#[trigger] items[i]).0) && m[items[i].0]
                == items[i].1,
        forall|k: u64| #[trigger] m.contains_key(k) ==> exists|i: int| 0 <= i < items.len() && items[i].0 == k,
        forall|a: int, b: int|
            0 <= a < b < items.len() ==> (#[trigger] items[a]).0 != (#[trigger] items[b]).0,
{
    assert forall|i: int| 0 <= i < items.len() implies m.contains_key((#[trigger] items[i]).0)
        && m[items[i].0] == items[i].1 by {
        assert(m.contains_key(*seq0[i].0));
    }
    assert forall|k: u64| #[trigger] m.contains_key(k) implies exists|i: int|
        0 <= i < items.len() && items[i].0 == k by {
        let j = choose|j: int| 0 <= j < seq0.len() && seq0[j] == (&k, &m[k]);
        assert(items[j].0 == k);
    }
    assert forall|a: int, b: int|
        0 <= a < b < items.len() implies (#[trigger] items[a]).0 != (#[trigger] items[b]).0 by {
        if items[a].0 == items[b].0 {
            assert(m[*seq0[a].0] == *seq0[a].1);
            assert(m[*seq0[b].0] == *seq0[b].1);
            assert(seq0[a] == seq0[b]);
        }
    }
}

/// A copy of a lobby entry.
fn copy_entry(e: &(u64, Peer)) -> (r: (u64, Peer))
    ensures
        r == *e,
{
    (e.0, e.1.duplicate())
}

/// `s` lists the entries of `m`, each once, in the lobby's order.
pub open spec fn is_lobby_list(m: Map<u64, Peer>, s: Seq<(u64, Peer)>) -> bool {
    &&& s.len() == m.len()
    &&& forall|i: int|
        0 <= i < s.len() ==> m.contains_key((#[trigger] s[i]).0) && m[s[i].0] == s[i].1
    &&& forall|k: u64| #[trigger] m.contains_key(k) ==> exists|i: int| 0 <= i < s.len() && s[i].0 == k
    &&& sorted_entries(s)
}

/// The lobby's list of the peers in `m`.
pub open spec fn lobby_list(m: Map<u64, Peer>) -> Seq<(u64, Peer)> {
    choose|s: Seq<(u64, Peer)>| is_lobby_list(m, s)
}

/// There is only one way to list a table in the lobby's order.
pub proof fn lemma_lobby_list_unique(m: Map<u64, Peer>, s1: Seq<(u64, Peer)>, s2: Seq<(u64, Peer)>)
    requires
        is_lobby_list(m, s1),
        is_lobby_list(m, s2),
    ensures
        s1 == s2,
{
    assert forall|i: int| 0 <= i < s1.len() implies s1[i] == s2[i] by {
        lemma_lobby_list_prefix(m, s1, s2, i);
    }
    assert(s1 =~= s2);
}

proof fn lemma_lobby_list_prefix(m: Map<u64, Peer>, s1: Seq<(u64, Peer)>, s2: Seq<(u64, Peer)>, i: int)
    requires
        is_lobby_list(m, s1),
        is_lobby_list(m, s2),
        0 <= i < s1.len(),
    ensures
        forall|j: int| 0 <= j <= i ==> s1[j] == s2[j],
    decreases i,
{
    if i > 0 {
        lemma_lobby_list_prefix(m, s1, s2, i - 1);
    }
    // Where each one's i-th entry stands in the other list.
    let k1 = s1[i].0;
    assert(m.contains_key(k1));
    let j1 = choose|j: int| 0 <= j < s2.len() && s2[j].0 == k1;
    let k2 = s2[i].0;
    assert(m.contains_key(k2));
    let j2 = choose|j: int| 0 <= j < s1.len() && s1[j].0 == k2;
    assert(s2[j1] == s1[i]);
    assert(s1[j2] == s2[i]);
    if j1 < i {
        assert(s1[j1] == s2[j1]);
        lemma_entry_less_irreflexive_key(s1, j1, i);
    }
    if j2 < i {
        assert(s1[j2] == s2[j2]);
        lemma_entry_less_irreflexive_key(s2, j2, i);
    }
    if j1 > i && j2 > i {
        assert(entry_less(s2[i], s2[j1]));
        assert(entry_less(s1[i], s1[j2]));
        lemma_entry_less_irreflexive(s2[i], s1[i]);
    }
    if j1 > i && j2 == i {
        assert(s1[i] == s2[i]);
    }
}

/// In a sorted list two positions never hold the same entry.
proof fn lemma_entry_less_irreflexive_key(s: Seq<(u64, Peer)>, a: int, b: int)
    requires
        sorted_entries(s),
        0 <= a < b < s.len(),
    ensures
        s[a] != s[b],
{
    assert(entry_less(s[a], s[b]));
    if s[a] == s[b] {
        lemma_entry_less_irreflexive(s[a], s[b]);
    }
}


/// Where `e` goes in the sorted `s`: after the entries that come before it.
pub open spec fn insert_pos(s: Seq<(u64, Peer)>, e: (u64, Peer)) -> int
    decreases s.len(),
{
    if s.len() == 0 {
        0
    } else if entry_less(s[0], e) {
        1 + insert_pos(s.drop_first(), e)
    } else {
        0
    }
}

proof fn lemma_insert_pos(s: Seq<(u64, Peer)>, e: (u64, Peer))
    requires
        sorted_entries(s),
        forall|i: int| 0 <= i < s.len() ==> (#[trigger] s[i]).0 != e.0,
    ensures
        0 <= insert_pos(s, e) <= s.len(),
        forall|i: int| 0 <= i < insert_pos(s, e) ==> entry_less(#[trigger] s[i], e),
        forall|i: int| insert_pos(s, e) <= i < s.len() ==> entry_less(e, #[trigger] s[i]),
    decreases s.len(),
{
    if s.len() > 0 {
        let t = s.drop_first();
        if entry_less(s[0], e) {
            assert forall|i: int, j: int| 0 <= i < j < t.len() implies entry_less(
                #[trigger] t[i],
                #[trigger] t[j],
            ) by {
                assert(t[i] == s[i + 1] && t[j] == s[j + 1]);
            }
            assert forall|i: int| 0 <= i < t.len() implies (#[trigger] t[i]).0 != e.0 by {
                assert(t[i] == s[i + 1]);
            }
            lemma_insert_pos(t, e);
            assert forall|i: int| 0 <= i < insert_pos(s, e) implies entry_less(#[trigger] s[i], e) by {
                if i > 0 {
                    assert(s[i] == t[i - 1]);
                }
            }
            assert forall|i: int| insert_pos(s, e) <= i < s.len() implies entry_less(
                e,
                #[trigger] s[i],
            ) by {
                assert(s[i] == t[i - 1]);
            }
        } else {
            lemma_entry_less_total(s[0], e);
            assert forall|i: int| 0 <= i < s.len() implies entry_less(e, #[trigger] s[i]) by {
                if i > 0 {
                    assert(entry_less(s[0], s[i]));
                    lemma_entry_less_transitive(e, s[0], s[i]);
                }
            }
        }
    }
}

proof fn lemma_sorted_insert(s: Seq<(u64, Peer)>, e: (u64, Peer))
    requires
        sorted_entries(s),
        forall|i: int| 0 <= i < s.len() ==> (#[trigger] s[i]).0 != e.0,
    ensures
        sorted_entries(s.insert(insert_pos(s, e), e)),
{
    lemma_insert_pos(s, e);
    let pos = insert_pos(s, e);
    let r = s.insert(pos, e);
    assert forall|i: int, j: int| 0 <= i < j < r.len() implies entry_less(
        #[trigger] r[i],
        #[trigger] r[j],
    ) by {
        if j < pos {
            assert(r[i] == s[i] && r[j] == s[j]);
        } else if j == pos {
            assert(r[i] == s[i]);
        } else if i < pos {
            assert(r[i] == s[i] && r[j] == s[j - 1]);
            lemma_entry_less_transitive(s[i], e, s[j - 1]);
        } else if i == pos {
            assert(r[j] == s[j - 1]);
        } else {
            assert(r[i] == s[i - 1] && r[j] == s[j - 1]);
        }
    }
}

/// Every table of peers can be listed in the lobby's order.
pub proof fn lemma_lobby_list_exists(m: Map<u64, Peer>)
    requires
        m.dom().finite(),
    ensures
        is_lobby_list(m, lobby_list(m)),
    decreases m.len(),
{
    if m.len() == 0 {
        vstd::set_lib::lemma_set_empty_equivalency_len(m.dom());
        assert(is_lobby_list(m, Seq::<(u64, Peer)>::empty()));
    } else {
        vstd::set_lib::lemma_set_empty_equivalency_len(m.dom());
        let k = m.dom().choose();
        let m2 = m.remove(k);
        assert(m2.dom() =~= m.dom().remove(k));
        lemma_lobby_list_exists(m2);
        let s2 = lobby_list(m2);
        let e = (k, m[k]);
        assert forall|i: int| 0 <= i < s2.len() implies (#[trigger] s2[i]).0 != e.0 by {
            assert(m2.contains_key(s2[i].0));
        }
        lemma_sorted_insert(s2, e);
        lemma_insert_pos(s2, e);
        let pos = insert_pos(s2, e);
        let s = s2.insert(pos, e);
        assert forall|i: int| 0 <= i < s.len() implies m.contains_key((#[trigger] s[i]).0) && m[s[i].0]
            == s[i].1 by {
            if i < pos {
                assert(s[i] == s2[i]);
            } else if i > pos {
                assert(s[i] == s2[i - 1]);
            }
        }
        assert forall|k2: u64| #[trigger] m.contains_key(k2) implies exists|i: int|
            0 <= i < s.len() && s[i].0 == k2 by {
            if k2 == k {
                assert(s[pos].0 == k);
            } else {
                assert(m2.contains_key(k2));
                let i = choose|i: int| 0 <= i < s2.len() && s2[i].0 == k2;
                if i < pos {
                    assert(s[i] == s2[i]);
                } else {
                    assert(s[i + 1] == s2[i]);
                }
            }
        }
        assert(is_lobby_list(m, s));
    }
}

/// Net: a peer that announced itself at most 5 s ago, and is not us,
/// is in the lobby's list after the stale peers were pruned.
pub proof fn lemma_announced_peer_listed(m: Map<u64, Peer>, own: u64, id: u64, p: Peer, now: u64)
    requires
        m.dom().finite(),
        id != own,
        is_fresh(p.last_seen, now),
    ensures
        lobby_list(fresh_peers(after_announce(m, own, id, p), now)).contains((id, p)),
{
    let m2 = after_announce(m, own, id, p);
    let f = fresh_peers(m2, now);
    assert(f.dom().subset_of(m2.dom()));
    vstd::set_lib::lemma_len_subset(f.dom(), m2.dom());
    lemma_lobby_list_exists(f);
    let s = lobby_list(f);
    assert(f.contains_key(id));
    let i = choose|i: int| 0 <= i < s.len() && s[i].0 == id;
    assert(s[i] == (id, p));
}

/// Net: our own session id never enters the table of peers.
pub proof fn lemma_own_id_never_listed(m: Map<u64, Peer>, own: u64, id: u64, p: Peer, now: u64)
    requires
        !m.contains_key(own),
    ensures
        !after_announce(m, own, id, p).contains_key(own),
        !fresh_peers(m, now).contains_key(own),
{
}

/// Net: after pruning, every listed peer was heard from less than 5 s
/// ago, and a pruned table stays the same when pruned again.
pub proof fn lemma_prune_fresh(m: Map<u64, Peer>, now: u64)
    ensures
        forall|k: u64| #[trigger] fresh_peers(m, now).contains_key(k) ==> elapsed(
            fresh_peers(m, now)[k].last_seen,
            now,
        ) < PEER_TIMEOUT_NS,
        fresh_peers(fresh_peers(m, now), now) == fresh_peers(m, now),
{
    assert(fresh_peers(fresh_peers(m, now), now) =~= fresh_peers(m, now));
}

/// Where `a` is lexicographically below `b`, there is a place `k` up to
/// which the two agree, after which `a` ends while `b` goes on, or `a` has the
/// smaller character.
pub proof fn lemma_text_less_place(a: Seq<char>, b: Seq<char>) -> (k: int)
    requires
        text_less(a, b),
    ensures
        0 <= k <= a.len(),
        k < b.len(),
        a.take(k) == b.take(k),
        k == a.len() || a[k] < b[k],
    decreases a.len(),
{
    if a.len() == 0 || a[0] != b[0] {
        assert(a.take(0) =~= b.take(0));
        0
    } else {
        let k = lemma_text_less_place(a.drop_first(), b.drop_first());
        assert(a.take(k + 1) =~= seq![a[0]] + a.drop_first().take(k));
        assert(b.take(k + 1) =~= seq![b[0]] + b.drop_first().take(k));
        k + 1
    }
}

/// The lobby lists peers by name in lexicographic order, whatever the names'
/// lengths: of two listed peers, the earlier one's name agrees with the later
/// one's up to some place, where it either ends or has the smaller
/// character; peers of the same name come by id.
pub proof fn lemma_lobby_order(m: Map<u64, Peer>, i: int, j: int)
    requires
        m.dom().finite(),
        0 <= i < j < lobby_list(m).len(),
    ensures
        ({
            let x = lobby_list(m)[i].1.name@;
            let y = lobby_list(m)[j].1.name@;
            ||| exists|k: int|
                #![trigger x.take(k), y.take(k)]
                0 <= k <= x.len() && k < y.len() && x.take(k) == y.take(k) && (k == x.len() || x[k]
                    < y[k])
            ||| (x == y && lobby_list(m)[i].0 < lobby_list(m)[j].0)
        }),
{
    lemma_lobby_list_exists(m);
    let s = lobby_list(m);
    assert(entry_less(s[i], s[j]));
    let x = s[i].1.name@;
    let y = s[j].1.name@;
    if text_less(x, y) {
        let k = lemma_text_less_place(x, y);
        assert(x.take(k) == y.take(k));
    }
}

/// Net: the clock in nanoseconds. An announcement is due when none was sent
/// yet, or when at least 1.5 s have passed since the last one; a peer stays in
/// the table, unchanged, while it was heard from less than 5 s ago. A clock
/// reading earlier than the recorded time counts as no time passed.
pub proof fn lemma_net_timing(m: Map<u64, Peer>, k: u64, last: u64, now: u64)
    ensures
        announce_due(None, now),
        announce_due(Some(last), now) <==> (now >= last && now - last >= 1_500_000_000),
        fresh_peers(m, now).contains_key(k) <==> (m.contains_key(k) && (m[k].last_seen > now || now
            - m[k].last_seen < 5_000_000_000)),
        fresh_peers(m, now).contains_key(k) ==> fresh_peers(m, now)[k] == m[k],
{
}

/// Net: two announcements are at least 1.5 s apart.
pub proof fn lemma_announcements_spaced(t1: u64, t2: u64)
    requires
        t1 <= t2,
        t2 - t1 < ANNOUNCE_INTERVAL_NS,
    ensures
        !announce_due(Some(t1), t2),
{
}

impl Net {
    /// The known peers, ordered by name (and by id between equal names).
    pub fn peer_list(&self) -> (r: Vec<(u64, Peer)>)
        ensures
            r@ == lobby_list(self.peers@),
            r.len() == self.peers@.len(),
            forall|i: int|
                0 <= i < r.len() ==> self.peers@.contains_key(#[trigger] r@[i].0)
                    && self.peers@[r@[i].0] == r@[i].1,
            forall|k: u64|
                #[trigger] self.peers@.contains_key(k) ==> exists|i: int|
                    0 <= i < r.len() && r@[i].0 == k,
            sorted_entries(r@),
    {
        broadcast use vstd::std_specs::hash::group_hash_axioms;
        broadcast use vstd::seq_lib::group_to_multiset_ensures;

        let ghost m = self.peers@;
        let ghost seq0 = vstd::std_specs::hash::spec_hash_map_iter(&self.peers).remaining();
        // The entries, in the order in which the map yields them.
        let mut items: Vec<(u64, Peer)> = Vec::new();
        for entry in it: self.peers.iter()
            invariant
                m == self.peers@,
                it.seq() == seq0,
                seq0 == vstd::std_specs::hash::spec_hash_map_iter(&self.peers).remaining(),
                items.len() == it.index(),
                forall|i: int|
                    0 <= i < items.len() ==> (#[trigger] items@[i]).0 == *seq0[i].0 && items@[i].1
                        == *seq0[i].1,
        {
            let ghost idx = it.index();
            assert(entry == it.seq()[idx as int]);
            let (k, p) = entry;
            items.push((*k, p.duplicate()));
        }
        proof {
            lemma_entries_of_map(m, seq0, items@);
        }
        // Insertion sort into the lobby's order.
        let mut out: Vec<(u64, Peer)> = Vec::new();
        let mut i: usize = 0;
        proof {
            assert(items@.take(0) =~= Seq::<(u64, Peer)>::empty());
        }
        while i < items.len()
            invariant
                i <= items.len(),
                sorted_entries(out@),
                out@.to_multiset() == items@.take(i as int).to_multiset(),
                forall|a: int, b: int|
                    0 <= a < b < items.len() ==> (#[trigger] items@[a]).0 != (#[trigger] items@[b]).0,
            decreases items.len() - i,
        {
            let item = copy_entry(&items[i]);
            proof {
                assert forall|j: int| 0 <= j < out.len() implies (#[trigger] out@[j]).0 != item.0 by {
                    assert(out@.contains(out@[j]));
                    vstd::seq_lib::to_multiset_contains(out@, out@[j]);
                    vstd::seq_lib::to_multiset_contains(items@.take(i as int), out@[j]);
                    assert(items@.take(i as int).contains(out@[j]));
                    let a = choose|a: int| 0 <= a < i && items@.take(i as int)[a] == out@[j];
                    assert(items@[a] == out@[j]);
                }
            }
            let ghost out0 = out@;
            insert_sorted(&mut out, item);
            proof {
                let pos = choose|pos: int| 0 <= pos <= out0.len() && out@ == out0.insert(pos, item);
                vstd::seq_lib::to_multiset_insert(out0, pos, item);
                assert(items@.take(i + 1) =~= items@.take(i as int).push(item));
                vstd::seq_lib::to_multiset_build(items@.take(i as int), item);
            }
            i = i + 1;
        }
        proof {
            assert(items@.take(items.len() as int) =~= items@);
            assert forall|j: int|
                0 <= j < out.len() implies m.contains_key(#[trigger] out@[j].0) && m[out@[j].0]
                    == out@[j].1 by {
                assert(out@.contains(out@[j]));
                vstd::seq_lib::to_multiset_contains(out@, out@[j]);
                vstd::seq_lib::to_multiset_contains(items@, out@[j]);
                assert(items@.contains(out@[j]));
            }
            assert forall|k: u64| #[trigger] m.contains_key(k) implies exists|j: int|
                0 <= j < out.len() && out@[j].0 == k by {
                let a = choose|a: int| 0 <= a < items.len() && items@[a].0 == k;
                assert(items@.contains(items@[a]));
                vstd::seq_lib::to_multiset_contains(items@, items@[a]);
                vstd::seq_lib::to_multiset_contains(out@, items@[a]);
                assert(out@.contains(items@[a]));
            }
            vstd::seq_lib::to_multiset_len(out@);
            vstd::seq_lib::to_multiset_len(items@);
            assert(is_lobby_list(m, out@));
            lemma_lobby_list_unique(m, out@, lobby_list(m));
        }
        out
    }
}

} // verus!
