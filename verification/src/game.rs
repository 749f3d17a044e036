//! The rules of a table tennis match: scoring, winning, who serves, the spin
//! each player has chosen, and the compact phase encoding sent to the guest.
use vstd::prelude::*;

verus! {

/// Points needed to win a game (with a lead of two).
pub const WIN_SCORE: u32 = 11;

/// Where a match stands. The pause after a point is timed by the caller.
#[derive(Clone, Copy, Debug, PartialEq, Eq, Structural)]
pub enum Phase {
    Serving { server: usize },
    Rally,
    Scored { winner: usize },
    GameOver { winner: usize },
}

/// The discrete state of a match between player 0 (the host, near end) and
/// player 1 (the guest, far end).
#[derive(Clone, Copy, Debug)]
pub struct Game {
    pub scores: [u32; 2],
    pub phase: Phase,
    pub rally_hits: u32,
    /// Each player's spin choice: -1 backspin, 0 flat, 1 topspin.
    pub spin: [i8; 2],
}

// ---------------------------------------------------------------------------
// Specifications
// ---------------------------------------------------------------------------

/// First to 11, with a lead of at least 2.
pub open spec fn game_won(s0: int, s1: int) -> bool {
    &&& (s0 >= WIN_SCORE || s1 >= WIN_SCORE)
    &&& (s0 - s1 >= 2 || s1 - s0 >= 2)
}

/// Both players have reached 10 points.
pub open spec fn deuce(s0: int, s1: int) -> bool {
    s0 >= WIN_SCORE - 1 && s1 >= WIN_SCORE - 1
}

/// Who serves the next point: the serve changes every two points, and every
/// point at deuce.
pub open spec fn server_for(s0: int, s1: int) -> int {
    if deuce(s0, s1) {
        (s0 + s1) % 2
    } else {
        ((s0 + s1) / 2) % 2
    }
}

/// The phase that follows the pause after a point, at scores `s0`, `s1`.
pub open spec fn phase_after_point(s0: int, s1: int) -> Phase {
    if game_won(s0, s1) {
        Phase::GameOver { winner: if s0 > s1 { 0 } else { 1 } }
    } else {
        Phase::Serving { server: server_for(s0, s1) as usize }
    }
}

/// The phase as sent to the guest: a code (0 serving, 1 rally, 2 scored,
/// 3 game over), the server and the winner.
pub open spec fn encode_phase(p: Phase) -> (u8, usize, usize) {
    match p {
        Phase::Serving { server } => (0, server, 0),
        Phase::Rally => (1, 0, 0),
        Phase::Scored { winner } => (2, 0, winner),
        Phase::GameOver { winner } => (3, 0, winner),
    }
}

/// The phase a guest takes from a received code; an unknown code keeps `cur`.
pub open spec fn decode_phase(code: u8, server: usize, winner: usize, cur: Phase) -> Phase {
    if code == 0 {
        Phase::Serving { server }
    } else if code == 1 {
        Phase::Rally
    } else if code == 2 {
        Phase::Scored { winner }
    } else if code == 3 {
        Phase::GameOver { winner }
    } else {
        cur
    }
}

/// A spin toggle: choosing the current spin again returns to flat.
pub open spec fn toggled(cur: i8, intent: i8) -> i8 {
    if cur == intent {
        0
    } else {
        intent
    }
}

/// The way the local paddle is pushed: left (-1) while only the left key is
/// held, right (1) while only the right key is, and not at all otherwise.
pub open spec fn push_direction(left: bool, right: bool) -> i8 {
    if left && !right {
        -1i8
    } else if right && !left {
        1i8
    } else {
        0i8
    }
}

/// The way the held movement keys push the local paddle.
pub fn paddle_direction(left: bool, right: bool) -> (d: i8)
    ensures
        d == push_direction(left, right),
{
    if left && !right {
        -1
    } else if right && !left {
        1
    } else {
        0
    }
}

impl Game {
    /// A match that has not started: 0-0, player 0 to serve, no spin.
    pub open spec fn is_fresh(self) -> bool {
        &&& self.score(0) == 0 && self.score(1) == 0
        &&& self.phase == (Phase::Serving { server: 0 })
        &&& self.rally_hits == 0
        &&& self.spin_of(0) == 0 && self.spin_of(1) == 0
    }

    /// `other` is this match with player `p`'s spin set to `v`.
    pub open spec fn spin_set(self, other: Game, p: int, v: i8) -> bool {
        &&& other.scores == self.scores
        &&& other.phase == self.phase
        &&& other.rally_hits == self.rally_hits
        &&& other.spin_of(p) == v
        &&& other.spin_of(1 - p) == self.spin_of(1 - p)
    }

    pub open spec fn score(self, p: int) -> int {
        self.scores@[p] as int
    }

    pub open spec fn spin_of(self, p: int) -> i8 {
        self.spin@[p]
    }

    // -----------------------------------------------------------------------
    // Operations
    // -----------------------------------------------------------------------

    /// A fresh match: 0-0, player 0 to serve, no spin.
    pub fn new() -> (m: Self)
        ensures
            m.is_fresh(),
    {
        Game { scores: [0, 0], phase: Phase::Serving { server: 0 }, rally_hits: 0, spin: [0, 0] }
    }

    /// The ball is in play after a serve: the rally starts with no hits.
    pub fn serve(&mut self)
        ensures
            final(self).phase == Phase::Rally,
            final(self).rally_hits == 0,
            final(self).scores == old(self).scores,
            final(self).spin == old(self).spin,
    {
        self.phase = Phase::Rally;
        self.rally_hits = 0;
    }

    /// A paddle returned the ball.
    pub fn record_hit(&mut self)
        requires
            old(self).rally_hits < u32::MAX,
        ensures
            final(self).rally_hits == old(self).rally_hits + 1,
            final(self).phase == old(self).phase,
            final(self).scores == old(self).scores,
            final(self).spin == old(self).spin,
    {
        self.rally_hits = self.rally_hits + 1;
    }

    /// `winner` won the rally: one more point, and the pause after it.
    pub fn award_point(&mut self, winner: usize)
        requires
            winner < 2,
            old(self).score(winner as int) < u32::MAX,
        ensures
            final(self).score(winner as int) == old(self).score(winner as int) + 1,
            final(self).score(1 - winner) == old(self).score(1 - winner),
            final(self).phase == (Phase::Scored { winner }),
            final(self).rally_hits == old(self).rally_hits,
            final(self).spin == old(self).spin,
    {
        let s = self.scores[winner] + 1;
        self.scores[winner] = s;
        self.phase = Phase::Scored { winner };
    }

    /// The pause after a point is over: the game is won, or the next serve is
    /// due. Returns whether play goes on (a serve is due).
    pub fn after_point(&mut self) -> (serving: bool)
        ensures
            final(self).phase == phase_after_point(old(self).score(0), old(self).score(1)),
            serving == (final(self).phase is Serving),
            final(self).scores == old(self).scores,
            final(self).rally_hits == old(self).rally_hits,
            final(self).spin == old(self).spin,
    {
        let s0 = self.scores[0];
        let s1 = self.scores[1];
        let max = if s0 > s1 { s0 } else { s1 };
        let diff = if s0 > s1 { s0 - s1 } else { s1 - s0 };
        if max >= WIN_SCORE && diff >= 2 {
            self.phase = Phase::GameOver { winner: if s0 > s1 { 0 } else { 1 } };
            false
        } else {
            let total: u64 = s0 as u64 + s1 as u64;
            let server = if s0 >= WIN_SCORE - 1 && s1 >= WIN_SCORE - 1 {
                (total % 2) as usize
            } else {
                ((total / 2) % 2) as usize
            };
            self.phase = Phase::Serving { server };
            true
        }
    }

    /// The phase as sent to the guest.
    pub fn phase_code(&self) -> (r: (u8, usize, usize))
        ensures
            r == encode_phase(self.phase),
    {
        match self.phase {
            Phase::Serving { server } => (0, server, 0),
            Phase::Rally => (1, 0, 0),
            Phase::Scored { winner } => (2, 0, winner),
            Phase::GameOver { winner } => (3, 0, winner),
        }
    }

    /// Takes over the host's scores and phase. Returns whether the guest has
    /// just entered the serving phase (and so clears the ball's trail).
    pub fn apply_phase_update(&mut self, code: u8, scores: [u32; 2], server: usize, winner: usize) -> (entered_serving: bool)
        ensures
            final(self).scores == scores,
            final(self).phase == decode_phase(code, server, winner, old(self).phase),
            entered_serving == (code == 0 && !(old(self).phase is Serving)),
            final(self).rally_hits == old(self).rally_hits,
            final(self).spin == old(self).spin,
    {
        let was_serving = match self.phase {
            Phase::Serving { .. } => true,
            _ => false,
        };
        self.scores = scores;
        self.phase = if code == 0 {
            Phase::Serving { server }
        } else if code == 1 {
            Phase::Rally
        } else if code == 2 {
            Phase::Scored { winner }
        } else if code == 3 {
            Phase::GameOver { winner }
        } else {
            self.phase
        };
        code == 0 && !was_serving
    }

    /// Player `player` presses the key for spin `intent`.
    pub fn toggle_spin(&mut self, player: usize, intent: i8)
        requires
            player < 2,
        ensures
            final(self).spin_of(player as int) == toggled(old(self).spin_of(player as int), intent),
            final(self).spin_of(1 - player) == old(self).spin_of(1 - player),
            final(self).scores == old(self).scores,
            final(self).phase == old(self).phase,
            final(self).rally_hits == old(self).rally_hits,
    {
        let s = if self.spin[player] == intent { 0 } else { intent };
        self.spin[player] = s;
    }

    /// The spin that player `player` reported.
    pub fn set_spin(&mut self, player: usize, spin: i8)
        requires
            player < 2,
        ensures
            final(self).spin_of(player as int) == spin,
            final(self).spin_of(1 - player) == old(self).spin_of(1 - player),
            final(self).scores == old(self).scores,
            final(self).phase == old(self).phase,
            final(self).rally_hits == old(self).rally_hits,
    {
        self.spin[player] = spin;
    }
}

// ---------------------------------------------------------------------------
// Laws
// ---------------------------------------------------------------------------

/// Win by two: when a point ends a game that was still open, the player who
/// won that point wins the game, with 11 points or two more than the loser.
pub proof fn lemma_game_ends_on_winners_point(s0: int, s1: int, w: int)
    requires
        s0 >= 0,
        s1 >= 0,
        w == 0 || w == 1,
        !game_won(s0, s1),
    ensures
        ({
            let t0 = if w == 0 { s0 + 1 } else { s0 };
            let t1 = if w == 1 { s1 + 1 } else { s1 };
            let (tw, tl) = if w == 0 { (t0, t1) } else { (t1, t0) };
            game_won(t0, t1) ==> {
                &&& phase_after_point(t0, t1) == Phase::GameOver { winner: w as usize }
                &&& tw == (if tl + 2 > WIN_SCORE { tl + 2 } else { WIN_SCORE as int })
            }
        }),
{
}

/// At deuce the serve changes after every point.
pub proof fn lemma_deuce_serve_alternates(s0: int, s1: int, w: int)
    requires
        deuce(s0, s1),
        w == 0 || w == 1,
    ensures
        ({
            let t0 = if w == 0 { s0 + 1 } else { s0 };
            let t1 = if w == 1 { s1 + 1 } else { s1 };
            server_for(t0, t1) != server_for(s0, s1)
        }),
{
}

/// Before deuce the serve changes every two points: the same player serves
/// the two points that start at an even total, and the other player the next
/// two.
pub proof fn lemma_serve_every_two_points(a0: int, a1: int, b0: int, b1: int)
    requires
        a0 >= 0 && a1 >= 0 && b0 >= 0 && b1 >= 0,
        !deuce(a0, a1),
        !deuce(b0, b1),
        (a0 + a1) % 2 == 0,
    ensures
        b0 + b1 == a0 + a1 + 1 ==> server_for(b0, b1) == server_for(a0, a1),
        b0 + b1 == a0 + a1 + 2 ==> server_for(b0, b1) != server_for(a0, a1),
{
}

/// The phase after a point, from the scores alone: a player with at least 11
/// points and two ahead has won; otherwise a serve is due, and player 0
/// serves the first.
pub proof fn lemma_after_point_outcome(s0: int, s1: int)
    requires
        s0 >= 0,
        s1 >= 0,
    ensures
        phase_after_point(s0, s1) == (Phase::GameOver { winner: 0 }) <==> (s0 >= 11 && s0 >= s1 + 2),
        phase_after_point(s0, s1) == (Phase::GameOver { winner: 1 }) <==> (s1 >= 11 && s1 >= s0 + 2),
        !(s0 >= 11 && s0 >= s1 + 2) && !(s1 >= 11 && s1 >= s0 + 2) ==> phase_after_point(s0, s1) is Serving,
        phase_after_point(0, 0) == (Phase::Serving { server: 0 }),
{
}

/// How the serve passes from one point to the next while the game goes on:
/// from 10-10 on it changes after every point; before that it stays after a
/// point that makes the total odd and changes after one that makes it even,
/// so each player serves two points in turn.
pub proof fn lemma_serve_rotation(s0: int, s1: int, w: int)
    requires
        s0 >= 0,
        s1 >= 0,
        w == 0 || w == 1,
        !(s0 >= 11 && s0 >= s1 + 2) && !(s1 >= 11 && s1 >= s0 + 2),
        ({
            let t0 = if w == 0 { s0 + 1 } else { s0 };
            let t1 = if w == 1 { s1 + 1 } else { s1 };
            !(t0 >= 11 && t0 >= t1 + 2) && !(t1 >= 11 && t1 >= t0 + 2)
        }),
    ensures
        ({
            let t0 = if w == 0 { s0 + 1 } else { s0 };
            let t1 = if w == 1 { s1 + 1 } else { s1 };
            let before = phase_after_point(s0, s1)->server;
            let after = phase_after_point(t0, t1)->server;
            &&& before < 2 && after < 2
            &&& (s0 >= 10 && s1 >= 10) ==> after != before
            &&& !(s0 >= 10 && s1 >= 10) && (s0 + s1) % 2 == 0 ==> after == before
            &&& !(s0 >= 10 && s1 >= 10) && (s0 + s1) % 2 == 1 ==> after != before
        }),
{
}

/// The held movement keys push the paddle left when only the left one is
/// held and right when only the right one is; swapping the keys reverses the
/// push, and holding both or neither does not push.
pub proof fn lemma_push_direction(left: bool, right: bool)
    ensures
        push_direction(left, right) == -push_direction(right, left),
        push_direction(left, right) < 0 <==> (left && !right),
        push_direction(left, right) == 0 <==> (left == right),
        -1 <= push_direction(left, right) <= 1,
{
}

/// The phase codes on the wire: 0 serving (with the server), 1 rally, 2 a
/// point scored (with its winner), 3 game over (with the winner); a guest
/// keeps its phase on any other code.
pub proof fn lemma_phase_codes(p: Phase, code: u8, server: usize, winner: usize, cur: Phase)
    ensures
        p is Serving ==> encode_phase(p).0 == 0 && encode_phase(p).1 == p->Serving_server,
        p is Rally ==> encode_phase(p).0 == 1,
        p is Scored ==> encode_phase(p).0 == 2 && encode_phase(p).2 == p->Scored_winner,
        p is GameOver ==> encode_phase(p).0 == 3 && encode_phase(p).2 == p->GameOver_winner,
        code > 3 ==> decode_phase(code, server, winner, cur) == cur,
{
}

/// The guest recovers exactly the phase that the host encoded.
pub proof fn lemma_phase_code_roundtrip(p: Phase, cur: Phase)
    ensures
        ({
            let (code, server, winner) = encode_phase(p);
            decode_phase(code, server, winner, cur) == p
        }),
{
}

/// Toggling the same spin twice from flat, or from that spin, restores it.
pub proof fn lemma_toggle_twice(cur: i8, intent: i8)
    requires
        cur == 0 || cur == intent,
    ensures
        toggled(toggled(cur, intent), intent) == cur,
{
}

/// Spin choices made with the keys are always backspin, flat or topspin.
pub proof fn lemma_toggle_in_range(cur: i8, intent: i8)
    requires
        -1 <= cur <= 1,
        intent == 1 || intent == -1,
    ensures
        -1 <= toggled(cur, intent) <= 1,
{
}

} // verus!
