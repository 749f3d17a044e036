//! The game's session logic: the lobby, challenges, and the discrete part of
//! play, driven by key presses and by messages from the opponent. Each step
//! returns the effects that the caller carries out (sending, moving the
//! paddle, updating the ball).
use vstd::prelude::*;

use crate::net::{lobby_list, Addr, Net, Peer};
use crate::game::{decode_phase, encode_phase, toggled, Game, Phase};

verus! {

/// A key press, as far as the game tells keys apart.
#[derive(Clone, Copy, Debug, PartialEq, Eq, Structural)]
pub enum Key {
    Char(char),
    Up,
    Down,
    Left,
    Right,
    Enter,
    Esc,
    Other,
}

/// A message received on the game socket, without the positions and speeds
/// that the caller applies itself.
#[derive(Debug)]
pub enum Incoming {
    Announce,
    Challenge { name: String },
    Accept { name: String },
    Decline,
    PaddleState { spin_intent: i8, serve: bool },
    BallState,
    PhaseUpdate { phase_code: u8, scores: [u32; 2], server: usize, winner: usize },
    Quit,
}

/// A message for the opponent that the session decides to send.
#[derive(Debug)]
pub enum Outgoing {
    Challenge { name: String },
    Accept { name: String },
    Decline,
    Quit,
}

/// What the caller does after a step.
#[derive(Debug)]
pub enum Effect {
    /// Send `msg` to `to`.
    Send { to: Addr, msg: Outgoing },
    /// A game starts: reset the ball and the paddles.
    NewGame,
    /// The local player holds the left or the right key.
    HoldLeft,
    HoldRight,
    /// Ask the host to serve for `player`: send that paddle's state with the
    /// serve flag set.
    RequestServe { to: Addr, player: usize },
    /// Send `player`'s paddle state, without a serve request.
    SendPaddle { to: Addr, player: usize },
    /// Send the ball's state.
    SendBall { to: Addr },
    /// Send the match's scores and encoded phase.
    SendPhase { to: Addr, phase_code: u8, scores: [u32; 2], server: usize, winner: usize },
    /// Take the received position and speed for `player`'s paddle.
    SetPaddle { player: usize },
    /// Take the received ball state.
    ApplyBall,
    /// Clear the ball's trail.
    ClearTrail,
}

/// Which screen the session is on.
#[derive(Debug)]
pub enum AppState {
    Lobby,
    WaitingAccept { peer_addr: Addr, peer_name: String },
    Challenged { from_addr: Addr, from_name: String },
    Playing { game: Game, is_host: bool, peer_addr: Addr },
}

/// The whole session.
#[derive(Debug)]
pub struct App {
    pub state: AppState,
    pub net: Net,
    pub should_quit: bool,
    pub lobby_selection: usize,
    pub opponent_name: String,
    /// A serve asked for, carried out on the host's next tick.
    pub pending_serve: bool,
    pub show_help: bool,
}

// ---------------------------------------------------------------------------
// Specifications
// ---------------------------------------------------------------------------

/// The host plays at the near end (player 0), the guest at the far end.
pub open spec fn local_of(is_host: bool) -> usize {
    if is_host {
        0
    } else {
        1
    }
}

pub open spec fn quit_key(k: Key) -> bool {
    k == Key::Char('q') || k == Key::Esc
}

pub open spec fn up_key(k: Key) -> bool {
    k == Key::Up || k == Key::Char('k')
}

pub open spec fn down_key(k: Key) -> bool {
    k == Key::Down || k == Key::Char('j')
}

pub open spec fn accept_key(k: Key) -> bool {
    k == Key::Char('y') || k == Key::Enter
}

pub open spec fn decline_key(k: Key) -> bool {
    k == Key::Char('n') || k == Key::Esc
}

pub open spec fn left_key(k: Key) -> bool {
    k == Key::Left || k == Key::Char('a')
}

pub open spec fn right_key(k: Key) -> bool {
    k == Key::Right || k == Key::Char('d')
}

impl App {
    /// The number of peers listed in the lobby.
    pub open spec fn lobby_count(self) -> nat {
        self.net.peers@.len()
    }

    /// The lobby entry under the cursor.
    pub open spec fn selected(self) -> (u64, Peer) {
        lobby_list(self.net.peers@)[self.lobby_selection as int]
    }

    /// `b` has the same settings as `a`, apart from the screen.
    pub open spec fn same_settings(a: App, b: App) -> bool {
        &&& b.net == a.net
        &&& b.should_quit == a.should_quit
        &&& b.lobby_selection == a.lobby_selection
        &&& b.opponent_name == a.opponent_name
        &&& b.pending_serve == a.pending_serve
        &&& b.show_help == a.show_help
    }

    /// A key press in the lobby: move the cursor, challenge the selected
    /// peer, or quit.
    pub open spec fn lobby_key(a: App, key: Key, b: App, eff: Seq<Effect>) -> bool {
        &&& b.net == a.net
        &&& b.opponent_name == a.opponent_name
        &&& b.pending_serve == a.pending_serve
        &&& b.show_help == a.show_help
        &&& b.should_quit == (a.should_quit || quit_key(key))
        &&& b.lobby_selection == (if up_key(key) && a.lobby_selection > 0 {
            (a.lobby_selection - 1) as usize
        } else if down_key(key) && a.lobby_count() > 0 && a.lobby_selection < a.lobby_count() - 1 {
            (a.lobby_selection + 1) as usize
        } else {
            a.lobby_selection
        })
        &&& if key == Key::Enter && a.lobby_selection < a.lobby_count() {
            let e = a.selected();
            &&& b.state == (AppState::WaitingAccept { peer_addr: e.1.addr, peer_name: e.1.name })
            &&& eff == seq![
                Effect::Send { to: e.1.addr, msg: Outgoing::Challenge { name: a.net.name } },
            ]
        } else {
            b.state == AppState::Lobby && eff == Seq::<Effect>::empty()
        }
    }

    /// A key press while waiting for an answer: Esc gives up.
    pub open spec fn waiting_key(a: App, key: Key, b: App, eff: Seq<Effect>) -> bool {
        &&& Self::same_settings(a, b)
        &&& b.state == (if key == Key::Esc {
            AppState::Lobby
        } else {
            a.state
        })
        &&& eff == Seq::<Effect>::empty()
    }

    /// A key press when challenged: accept (and play as the guest) or decline.
    pub open spec fn challenged_key(a: App, key: Key, b: App, eff: Seq<Effect>) -> bool {
        &&& a.state matches AppState::Challenged { from_addr, from_name }
        &&& b.net == a.net
        &&& b.should_quit == a.should_quit
        &&& b.lobby_selection == a.lobby_selection
        &&& b.pending_serve == a.pending_serve
        &&& b.show_help == a.show_help
        &&& if accept_key(key) {
            &&& b.opponent_name == from_name
            &&& b.state matches AppState::Playing { game, is_host, peer_addr }
            &&& game.is_fresh() && !is_host && peer_addr == from_addr
            &&& eff == seq![
                Effect::Send { to: from_addr, msg: Outgoing::Accept { name: a.net.name } },
                Effect::NewGame,
            ]
        } else if decline_key(key) {
            &&& b.opponent_name == a.opponent_name
            &&& b.state == AppState::Lobby
            &&& eff == seq![Effect::Send { to: from_addr, msg: Outgoing::Decline }]
        } else {
            &&& b.opponent_name == a.opponent_name
            &&& b.state == a.state
            &&& eff == Seq::<Effect>::empty()
        }
    }

    /// A key press during a game.
    pub open spec fn playing_key(a: App, key: Key, b: App, eff: Seq<Effect>) -> bool {
        &&& a.state matches AppState::Playing { game, is_host, peer_addr }
        &&& b.net == a.net
        &&& b.should_quit == a.should_quit
        &&& b.lobby_selection == a.lobby_selection
        &&& b.opponent_name == a.opponent_name
        &&& b.show_help == (if key == Key::Char('h') {
            !a.show_help
        } else {
            a.show_help
        })
        &&& b.pending_serve == (a.pending_serve || (key == Key::Char(' ') && is_host && game.phase
            == Phase::Serving { server: local_of(is_host) }))
        &&& if quit_key(key) {
            &&& b.state == AppState::Lobby
            &&& eff == seq![Effect::Send { to: peer_addr, msg: Outgoing::Quit }]
        } else if key == Key::Char('w') || key == Key::Char('s') {
            let intent: i8 = if key == Key::Char('w') {
                1i8
            } else {
                -1i8
            };
            let p = local_of(is_host) as int;
            &&& b.state matches AppState::Playing { game: g2, is_host: h2, peer_addr: a2 }
            &&& h2 == is_host && a2 == peer_addr
            &&& game.spin_set(g2, p, toggled(game.spin_of(p), intent))
            &&& eff == Seq::<Effect>::empty()
        } else {
            &&& b.state == a.state
            &&& eff == (if left_key(key) {
                seq![Effect::HoldLeft]
            } else if right_key(key) {
                seq![Effect::HoldRight]
            } else if key == Key::Char(' ') && !is_host && game.phase == (Phase::Serving {
                server: local_of(is_host),
            }) {
                seq![Effect::RequestServe { to: peer_addr, player: local_of(is_host) }]
            } else {
                Seq::<Effect>::empty()
            })
        }
    }

    /// A message from `from` while in the lobby: a challenge.
    pub open spec fn lobby_message(a: App, from: Addr, msg: Incoming, b: App, eff: Seq<Effect>) -> bool {
        &&& Self::same_settings(a, b)
        &&& eff == Seq::<Effect>::empty()
        &&& b.state == (match msg {
            Incoming::Challenge { name } => AppState::Challenged { from_addr: from, from_name: name },
            _ => AppState::Lobby,
        })
    }

    /// A message while waiting: only the challenged peer's answer counts.
    pub open spec fn waiting_message(a: App, from: Addr, msg: Incoming, b: App, eff: Seq<Effect>) -> bool {
        &&& a.state matches AppState::WaitingAccept { peer_addr, peer_name }
        &&& b.net == a.net
        &&& b.should_quit == a.should_quit
        &&& b.lobby_selection == a.lobby_selection
        &&& b.pending_serve == a.pending_serve
        &&& b.show_help == a.show_help
        &&& if from == peer_addr && msg is Accept {
            &&& b.opponent_name == msg->Accept_name
            &&& b.state matches AppState::Playing { game, is_host, peer_addr: pa }
            &&& game.is_fresh() && is_host && pa == peer_addr
            &&& eff == seq![Effect::NewGame]
        } else if from == peer_addr && msg is Decline {
            &&& b.opponent_name == a.opponent_name
            &&& b.state == AppState::Lobby
            &&& eff == Seq::<Effect>::empty()
        } else {
            &&& b.opponent_name == a.opponent_name
            &&& b.state == a.state
            &&& eff == Seq::<Effect>::empty()
        }
    }

    /// A message during a game.
    pub open spec fn playing_message(a: App, msg: Incoming, b: App, eff: Seq<Effect>) -> bool {
        &&& a.state matches AppState::Playing { game, is_host, peer_addr }
        &&& b.net == a.net
        &&& b.should_quit == a.should_quit
        &&& b.lobby_selection == a.lobby_selection
        &&& b.opponent_name == a.opponent_name
        &&& b.show_help == a.show_help
        &&& match msg {
            Incoming::PaddleState { spin_intent, serve } => {
                let remote = 1 - local_of(is_host);
                &&& b.pending_serve == (a.pending_serve || serve)
                &&& b.state matches AppState::Playing { game: g2, is_host: h2, peer_addr: a2 }
                &&& h2 == is_host && a2 == peer_addr
                &&& game.spin_set(g2, remote, spin_intent)
                &&& eff == seq![Effect::SetPaddle { player: remote as usize }]
            },
            Incoming::BallState => {
                &&& b.pending_serve == a.pending_serve
                &&& b.state == a.state
                &&& eff == (if is_host {
                    Seq::<Effect>::empty()
                } else {
                    seq![Effect::ApplyBall]
                })
            },
            Incoming::PhaseUpdate { phase_code, scores, server, winner } => {
                &&& b.pending_serve == a.pending_serve
                &&& if is_host {
                    b.state == a.state && eff == Seq::<Effect>::empty()
                } else {
                    &&& b.state matches AppState::Playing { game: g2, is_host: h2, peer_addr: a2 }
                    &&& h2 == is_host && a2 == peer_addr
                    &&& g2.scores == scores
                    &&& g2.phase == decode_phase(phase_code, server, winner, game.phase)
                    &&& g2.rally_hits == game.rally_hits
                    &&& g2.spin == game.spin
                    &&& eff == (if phase_code == 0 && !(game.phase is Serving) {
                        seq![Effect::ClearTrail]
                    } else {
                        Seq::<Effect>::empty()
                    })
                }
            },
            Incoming::Quit => {
                &&& b.pending_serve == a.pending_serve
                &&& b.state == AppState::Lobby
                &&& eff == Seq::<Effect>::empty()
            },
            _ => {
                &&& b.pending_serve == a.pending_serve
                &&& b.state == a.state
                &&& eff == Seq::<Effect>::empty()
            },
        }
    }
}


// ---------------------------------------------------------------------------
// Laws
// ---------------------------------------------------------------------------

/// The lobby cursor stays on the list: no key press in the lobby moves it
/// past the last entry.
pub proof fn lemma_lobby_cursor_in_list(a: App, key: Key, b: App, eff: Seq<Effect>)
    requires
        App::lobby_key(a, key, b, eff),
        a.lobby_selection < a.lobby_count(),
    ensures
        b.lobby_selection < b.lobby_count(),
{
}

/// Pressing `h` twice during a game leaves the session as it was, and sends
/// nothing.
pub proof fn lemma_help_key_twice(a: App, b: App, c: App, e1: Seq<Effect>, e2: Seq<Effect>)
    requires
        App::playing_key(a, Key::Char('h'), b, e1),
        App::playing_key(b, Key::Char('h'), c, e2),
    ensures
        c == a,
        e1 == Seq::<Effect>::empty(),
        e2 == Seq::<Effect>::empty(),
{
}

/// Pressing the same spin key twice during a game, starting from no spin or
/// from that key's own spin, leaves the session as it was, and sends nothing.
pub proof fn lemma_spin_key_twice(a: App, key: Key, b: App, c: App, e1: Seq<Effect>, e2: Seq<Effect>)
    requires
        key == Key::Char('w') || key == Key::Char('s'),
        App::playing_key(a, key, b, e1),
        App::playing_key(b, key, c, e2),
        a.state matches AppState::Playing { game, is_host, .. } && (game.spin_of(
            local_of(is_host) as int,
        ) == 0 || game.spin_of(local_of(is_host) as int) == (if key == Key::Char('w') {
            1i8
        } else {
            -1i8
        })),
    ensures
        c == a,
        e1 == Seq::<Effect>::empty(),
        e2 == Seq::<Effect>::empty(),
{
    if let (
        AppState::Playing { game: ga, .. },
        AppState::Playing { game: gc, .. },
    ) = (a.state, c.state) {
        broadcast use vstd::array::group_array_axioms;
        assert(gc.spin =~= ga.spin);
    }
}

/// The lobby's keys: Up and `k` move the cursor up one entry unless it is on
/// the first, Down and `j` move it down one unless it is on the last, no
/// other key moves it; `q` and Esc quit; Enter on a listed peer challenges
/// that peer and waits for its answer; any other key stays in the lobby and
/// sends nothing.
pub proof fn lemma_lobby_keys(a: App, key: Key, b: App, eff: Seq<Effect>)
    requires
        App::lobby_key(a, key, b, eff),
        a.net.peers@.len() <= usize::MAX,
    ensures
        (key == Key::Up || key == Key::Char('k')) ==> b.lobby_selection == (if a.lobby_selection > 0 {
            a.lobby_selection - 1
        } else {
            a.lobby_selection as int
        }),
        (key == Key::Down || key == Key::Char('j')) ==> b.lobby_selection == (if a.lobby_selection + 1
            < a.net.peers@.len() {
            a.lobby_selection + 1
        } else {
            a.lobby_selection as int
        }),
        !(key == Key::Up || key == Key::Char('k') || key == Key::Down || key == Key::Char('j'))
            ==> b.lobby_selection == a.lobby_selection,
        b.should_quit == (a.should_quit || key == Key::Char('q') || key == Key::Esc),
        (key == Key::Enter && a.lobby_selection < a.net.peers@.len()) ==> ({
            let peer = lobby_list(a.net.peers@)[a.lobby_selection as int].1;
            &&& b.state == (AppState::WaitingAccept { peer_addr: peer.addr, peer_name: peer.name })
            &&& eff == seq![
                Effect::Send { to: peer.addr, msg: Outgoing::Challenge { name: a.net.name } },
            ]
        }),
        key != Key::Enter ==> b.state == AppState::Lobby && eff.len() == 0,
{
}

/// When challenged, `y` and Enter accept: a game starts with the challenger
/// as the host, and the acceptance is sent to it; `n` and Esc decline: the
/// refusal is sent and the lobby returns; other keys change nothing.
pub proof fn lemma_challenge_keys(a: App, key: Key, b: App, eff: Seq<Effect>)
    requires
        App::challenged_key(a, key, b, eff),
    ensures
        match a.state {
            AppState::Challenged { from_addr, from_name } => {
                &&& (key == Key::Char('y') || key == Key::Enter) ==> {
                    &&& b.state matches AppState::Playing { is_host, peer_addr, .. }
                    &&& !is_host && peer_addr == from_addr
                    &&& b.opponent_name == from_name
                    &&& eff == seq![
                        Effect::Send { to: from_addr, msg: Outgoing::Accept { name: a.net.name } },
                        Effect::NewGame,
                    ]
                }
                &&& (key == Key::Char('n') || key == Key::Esc) ==> {
                    &&& b.state == AppState::Lobby
                    &&& eff == seq![Effect::Send { to: from_addr, msg: Outgoing::Decline }]
                }
                &&& !(key == Key::Char('y') || key == Key::Enter || key == Key::Char('n') || key
                    == Key::Esc) ==> b.state == a.state && eff.len() == 0
            },
            _ => false,
        },
{
}

/// The game's keys, for the local player `me` (0 on the host, 1 on the
/// guest): Right and `d` push the paddle right, Left and `a` push it left; `q`
/// and Esc leave the game and tell the opponent; `h` toggles the help; `w`
/// toggles topspin and `s` backspin on the local paddle only; Space serves
/// when it is the local player's serve (the host on its next tick, the guest
/// by asking the host).
pub proof fn lemma_game_keys(a: App, key: Key, b: App, eff: Seq<Effect>)
    requires
        App::playing_key(a, key, b, eff),
    ensures
        match a.state {
            AppState::Playing { game, is_host, peer_addr } => {
                let me: int = if is_host {
                    0
                } else {
                    1
                };
                &&& (key == Key::Right || key == Key::Char('d')) ==> eff == seq![Effect::HoldRight]
                    && b.state == a.state
                &&& (key == Key::Left || key == Key::Char('a')) ==> eff == seq![Effect::HoldLeft]
                    && b.state == a.state
                &&& (key == Key::Char('q') || key == Key::Esc) ==> b.state == AppState::Lobby && eff
                    == seq![Effect::Send { to: peer_addr, msg: Outgoing::Quit }]
                &&& b.show_help == (a.show_help != (key == Key::Char('h')))
                &&& (key == Key::Char('w') || key == Key::Char('s')) ==> {
                    let dir: i8 = if key == Key::Char('w') {
                        1i8
                    } else {
                        -1i8
                    };
                    &&& b.state matches AppState::Playing { game: g, is_host: h, peer_addr: pa }
                    &&& h == is_host && pa == peer_addr
                    &&& g.spin@[me] == (if game.spin@[me] == dir {
                        0i8
                    } else {
                        dir
                    })
                    &&& g.spin@[1 - me] == game.spin@[1 - me]
                    &&& g.scores == game.scores && g.phase == game.phase
                    &&& eff.len() == 0
                }
                &&& b.pending_serve == (a.pending_serve || (key == Key::Char(' ') && is_host
                    && game.phase == Phase::Serving { server: me as usize }))
                &&& (key == Key::Char(' ') && !is_host && game.phase == Phase::Serving {
                    server: me as usize,
                }) ==> eff == seq![Effect::RequestServe { to: peer_addr, player: me as usize }]
            },
            _ => false,
        },
{
}

/// A received paddle state is the opponent's: it sets the opponent's paddle
/// and spin (player 1 on the host, player 0 on the guest), never the local
/// player's, and a serve request in it is kept for the next tick.
pub proof fn lemma_paddle_state_is_opponents(a: App, spin_intent: i8, serve: bool, b: App, eff: Seq<Effect>)
    requires
        App::playing_message(a, Incoming::PaddleState { spin_intent, serve }, b, eff),
    ensures
        match a.state {
            AppState::Playing { game, is_host, .. } => {
                let opp: int = if is_host {
                    1
                } else {
                    0
                };
                &&& eff == seq![Effect::SetPaddle { player: opp as usize }]
                &&& b.state matches AppState::Playing { game: g, .. }
                &&& g.spin@[opp] == spin_intent
                &&& g.spin@[1 - opp] == game.spin@[1 - opp]
                &&& b.pending_serve == (a.pending_serve || serve)
            },
            _ => false,
        },
{
}

/// The opponent leaving ends the game: the lobby returns.
pub proof fn lemma_opponent_quit(a: App, b: App, eff: Seq<Effect>)
    requires
        App::playing_message(a, Incoming::Quit, b, eff),
    ensures
        b.state == AppState::Lobby,
        eff.len() == 0,
{
}

/// A challenge becomes a game, with us as the host, only when the challenged
/// peer accepts it.
pub proof fn lemma_game_needs_acceptance(a: App, from: Addr, msg: Incoming, b: App, eff: Seq<Effect>)
    requires
        App::waiting_message(a, from, msg, b, eff),
        b.state is Playing,
    ensures
        a.state matches AppState::WaitingAccept { peer_addr, .. } && from == peer_addr,
        msg is Accept,
{
}

/// The host's view of the match is its own: what the guest reports of the
/// ball and the phase changes nothing on the host.
pub proof fn lemma_host_authoritative(a: App, msg: Incoming, b: App, eff: Seq<Effect>)
    requires
        App::playing_message(a, msg, b, eff),
        a.state matches AppState::Playing { is_host, .. } && is_host,
        msg is BallState || msg is PhaseUpdate,
    ensures
        b.state == a.state,
        eff == Seq::<Effect>::empty(),
{
}


/// Whether player `p`'s serve is due in phase `phase`.
fn serving_is(phase: &Phase, p: usize) -> (r: bool)
    ensures
        r == (*phase == Phase::Serving { server: p }),
{
    match phase {
        Phase::Serving { server } => *server == p,
        _ => false,
    }
}

impl App {
    /// A session for the player `name`, whose game socket listens on
    /// `game_port`, starting in the lobby.
    pub fn new(name: String, game_port: u16) -> (app: App)
        ensures
            app.state == AppState::Lobby,
            app.net.name == name,
            app.net.game_port == game_port,
            app.net.peers@ == Map::<u64, Peer>::empty(),
            app.net.last_announce is None,
            !app.should_quit,
            app.lobby_selection == 0,
            app.opponent_name@ == Seq::<char>::empty(),
            !app.pending_serve,
            !app.show_help,
    {
        App {
            state: AppState::Lobby,
            net: Net::new(name, game_port),
            should_quit: false,
            lobby_selection: 0,
            opponent_name: String::new(),
            pending_serve: false,
            show_help: false,
        }
    }

    /// The player this side controls: 0 for the host, 1 for the guest.
    pub fn local_player(is_host: bool) -> (p: usize)
        ensures
            p == local_of(is_host),
    {
        if is_host {
            0
        } else {
            1
        }
    }

    /// Whether a game is on.
    pub fn is_playing(&self) -> (r: bool)
        ensures
            r == (self.state is Playing),
    {
        match self.state {
            AppState::Playing { .. } => true,
            _ => false,
        }
    }

    /// Handles a key press.
    pub fn handle_key(&mut self, key: Key) -> (eff: Vec<Effect>)
        ensures
            old(self).state is Lobby ==> Self::lobby_key(*old(self), key, *final(self), eff@),
            old(self).state is WaitingAccept ==> Self::waiting_key(
                *old(self),
                key,
                *final(self),
                eff@,
            ),
            old(self).state is Challenged ==> Self::challenged_key(
                *old(self),
                key,
                *final(self),
                eff@,
            ),
            old(self).state is Playing ==> Self::playing_key(*old(self), key, *final(self), eff@),
    {
        match self.state {
            AppState::Lobby => self.key_lobby(key),
            AppState::WaitingAccept { .. } => {
                if key == Key::Esc {
                    self.state = AppState::Lobby;
                }
                Vec::new()
            },
            AppState::Challenged { .. } => self.key_challenge(key),
            AppState::Playing { .. } => self.key_game(key),
        }
    }

    /// A key press in the lobby.
    pub fn key_lobby(&mut self, key: Key) -> (eff: Vec<Effect>)
        requires
            old(self).state is Lobby,
        ensures
            Self::lobby_key(*old(self), key, *final(self), eff@),
    {
        let mut eff: Vec<Effect> = Vec::new();
        let n = self.net.peers.len();
        proof {
            broadcast use vstd::std_specs::hash::group_hash_axioms;
        }
        match key {
            Key::Char('q') | Key::Esc => {
                self.should_quit = true;
            },
            Key::Up | Key::Char('k') => {
                if self.lobby_selection > 0 {
                    self.lobby_selection = self.lobby_selection - 1;
                }
            },
            Key::Down | Key::Char('j') => {
                if n > 0 && self.lobby_selection < n - 1 {
                    self.lobby_selection = self.lobby_selection + 1;
                }
            },
            Key::Enter => {
                let peers = self.net.peer_list();
                if self.lobby_selection < peers.len() {
                    let addr = peers[self.lobby_selection].1.addr;
                    let name = peers[self.lobby_selection].1.name.clone();
                    eff.push(
                        Effect::Send {
                            to: addr,
                            msg: Outgoing::Challenge { name: self.net.name.clone() },
                        },
                    );
                    self.state = AppState::WaitingAccept { peer_addr: addr, peer_name: name };
                }
            },
            _ => {},
        }
        eff
    }

    /// A key press when challenged.
    pub fn key_challenge(&mut self, key: Key) -> (eff: Vec<Effect>)
        requires
            old(self).state is Challenged,
        ensures
            Self::challenged_key(*old(self), key, *final(self), eff@),
    {
        let mut eff: Vec<Effect> = Vec::new();
        let (addr, name) = match &self.state {
            AppState::Challenged { from_addr, from_name } => (*from_addr, from_name.clone()),
            _ => {
                return eff;
            },
        };
        match key {
            Key::Char('y') | Key::Enter => {
                eff.push(
                    Effect::Send { to: addr, msg: Outgoing::Accept { name: self.net.name.clone() } },
                );
                eff.push(Effect::NewGame);
                assert(eff@ =~= seq![
                    Effect::Send { to: addr, msg: Outgoing::Accept { name: self.net.name } },
                    Effect::NewGame,
                ]);
                self.opponent_name = name;
                self.state = AppState::Playing { game: Game::new(), is_host: false, peer_addr: addr };
            },
            Key::Char('n') | Key::Esc => {
                eff.push(Effect::Send { to: addr, msg: Outgoing::Decline });
                self.state = AppState::Lobby;
            },
            _ => {},
        }
        eff
    }

    /// A key press during a game.
    pub fn key_game(&mut self, key: Key) -> (eff: Vec<Effect>)
        requires
            old(self).state is Playing,
        ensures
            Self::playing_key(*old(self), key, *final(self), eff@),
    {
        let mut eff: Vec<Effect> = Vec::new();
        let (is_host, peer_addr) = match &self.state {
            AppState::Playing { is_host, peer_addr, .. } => (*is_host, *peer_addr),
            _ => {
                return eff;
            },
        };
        let local = Self::local_player(is_host);
        match key {
            Key::Char('q') | Key::Esc => {
                eff.push(Effect::Send { to: peer_addr, msg: Outgoing::Quit });
                self.state = AppState::Lobby;
            },
            Key::Left | Key::Char('a') => {
                eff.push(Effect::HoldLeft);
            },
            Key::Right | Key::Char('d') => {
                eff.push(Effect::HoldRight);
            },
            Key::Char('h') => {
                self.show_help = !self.show_help;
            },
            Key::Char('w') => {
                if let AppState::Playing { game, .. } = &mut self.state {
                    game.toggle_spin(local, 1);
                }
            },
            Key::Char('s') => {
                if let AppState::Playing { game, .. } = &mut self.state {
                    game.toggle_spin(local, -1);
                }
            },
            Key::Char(' ') => {
                if let AppState::Playing { game, .. } = &self.state {
                    if serving_is(&game.phase, local) {
                        if is_host {
                            self.pending_serve = true;
                        } else {
                            eff.push(Effect::RequestServe { to: peer_addr, player: local });
                        }
                    }
                }
            },
            _ => {},
        }
        eff
    }

    /// Handles a message that `from` sent to our game socket.
    pub fn on_message(&mut self, from: Addr, msg: Incoming) -> (eff: Vec<Effect>)
        ensures
            old(self).state is Lobby ==> Self::lobby_message(*old(self), from, msg, *final(self), eff@),
            old(self).state is WaitingAccept ==> Self::waiting_message(
                *old(self),
                from,
                msg,
                *final(self),
                eff@,
            ),
            old(self).state is Challenged ==> (Self::same_settings(*old(self), *final(self))
                && final(self).state == old(self).state && eff@ == Seq::<Effect>::empty()),
            old(self).state is Playing ==> Self::playing_message(*old(self), msg, *final(self), eff@),
    {
        let mut eff: Vec<Effect> = Vec::new();
        match self.state {
            AppState::Lobby => {
                if let Incoming::Challenge { name } = msg {
                    self.state = AppState::Challenged { from_addr: from, from_name: name };
                }
            },
            AppState::WaitingAccept { peer_addr, .. } => {
                if from == peer_addr {
                    match msg {
                        Incoming::Accept { name } => {
                            self.opponent_name = name;
                            self.state = AppState::Playing {
                                game: Game::new(),
                                is_host: true,
                                peer_addr,
                            };
                            eff.push(Effect::NewGame);
                        },
                        Incoming::Decline => {
                            self.state = AppState::Lobby;
                        },
                        _ => {},
                    }
                }
            },
            AppState::Challenged { .. } => {},
            AppState::Playing { is_host, .. } => {
                match msg {
                    Incoming::PaddleState { spin_intent, serve } => {
                        let remote: usize = if is_host { 1 } else { 0 };
                        if let AppState::Playing { game, .. } = &mut self.state {
                            game.set_spin(remote, spin_intent);
                        }
                        eff.push(Effect::SetPaddle { player: remote });
                        if serve {
                            self.pending_serve = true;
                        }
                    },
                    Incoming::BallState => {
                        if !is_host {
                            eff.push(Effect::ApplyBall);
                        }
                    },
                    Incoming::PhaseUpdate { phase_code, scores, server, winner } => {
                        if !is_host {
                            let mut entered = false;
                            if let AppState::Playing { game, .. } = &mut self.state {
                                entered = game.apply_phase_update(phase_code, scores, server, winner);
                            }
                            if entered {
                                eff.push(Effect::ClearTrail);
                            }
                        }
                    },
                    Incoming::Quit => {
                        self.state = AppState::Lobby;
                    },
                    _ => {},
                }
            },
        }
        eff
    }

    /// On the host, carries out a pending serve request: when it is someone's
    /// serve, the rally begins, and the server is returned so that the caller
    /// can put the ball in play. The request is used up either way.
    pub fn start_pending_serve(&mut self) -> (server: Option<usize>)
        ensures
            final(self).net == old(self).net,
            final(self).should_quit == old(self).should_quit,
            final(self).lobby_selection == old(self).lobby_selection,
            final(self).opponent_name == old(self).opponent_name,
            final(self).show_help == old(self).show_help,
            match old(self).state {
                AppState::Playing { game, is_host, peer_addr } => if is_host && old(
                    self,
                ).pending_serve {
                    &&& !final(self).pending_serve
                    &&& match game.phase {
                        Phase::Serving { server: s } => {
                            &&& server == Some(s)
                            &&& final(self).state matches AppState::Playing {
                                game: g2,
                                is_host: h2,
                                peer_addr: a2,
                            }
                            &&& h2 == is_host && a2 == peer_addr
                            &&& g2.phase == Phase::Rally
                            &&& g2.rally_hits == 0
                            &&& g2.scores == game.scores
                            &&& g2.spin == game.spin
                        },
                        _ => server is None && final(self).state == old(self).state,
                    }
                } else {
                    &&& server is None
                    &&& final(self).pending_serve == old(self).pending_serve
                    &&& final(self).state == old(self).state
                },
                _ => {
                    &&& server is None
                    &&& final(self).pending_serve == old(self).pending_serve
                    &&& final(self).state == old(self).state
                },
            },
    {
        let is_host = match self.state {
            AppState::Playing { is_host, .. } => is_host,
            _ => {
                return None;
            },
        };
        if !is_host || !self.pending_serve {
            return None;
        }
        self.pending_serve = false;
        if let AppState::Playing { game, .. } = &mut self.state {
            if let Phase::Serving { server } = game.phase {
                game.serve();
                return Some(server);
            }
        }
        None
    }

    /// On the guest, whether the ball follows the local paddle: during its
    /// own serve, before the host puts the ball in play.
    pub fn guest_holds_ball(&self) -> (r: bool)
        ensures
            r == (self.state matches AppState::Playing { game, is_host, .. } && !is_host
                && game.phase == (Phase::Serving { server: local_of(is_host) })),
    {
        match &self.state {
            AppState::Playing { game, is_host, .. } => !*is_host && serving_is(&game.phase, 1),
            _ => false,
        }
    }

    /// The messages of a game tick, sent after the tick's physics: the host
    /// sends the ball and the phase (every tick, as packets may be lost),
    /// and each side sends its own paddle.
    pub fn tick_messages(&self) -> (eff: Vec<Effect>)
        ensures
            match self.state {
                AppState::Playing { game, is_host, peer_addr } => eff@ == (if is_host {
                    seq![
                        Effect::SendBall { to: peer_addr },
                        Effect::SendPhase {
                            to: peer_addr,
                            phase_code: encode_phase(game.phase).0,
                            scores: game.scores,
                            server: encode_phase(game.phase).1,
                            winner: encode_phase(game.phase).2,
                        },
                        Effect::SendPaddle { to: peer_addr, player: 0 },
                    ]
                } else {
                    seq![Effect::SendPaddle { to: peer_addr, player: 1 }]
                }),
                _ => eff@ == Seq::<Effect>::empty(),
            },
    {
        let mut eff: Vec<Effect> = Vec::new();
        if let AppState::Playing { game, is_host, peer_addr } = &self.state {
            if *is_host {
                let (code, server, winner) = game.phase_code();
                eff.push(Effect::SendBall { to: *peer_addr });
                eff.push(
                    Effect::SendPhase {
                        to: *peer_addr,
                        phase_code: code,
                        scores: game.scores,
                        server,
                        winner,
                    },
                );
                eff.push(Effect::SendPaddle { to: *peer_addr, player: 0 });
                assert(eff@ =~= seq![
                    Effect::SendBall { to: *peer_addr },
                    Effect::SendPhase {
                        to: *peer_addr,
                        phase_code: code,
                        scores: game.scores,
                        server,
                        winner,
                    },
                    Effect::SendPaddle { to: *peer_addr, player: 0 },
                ]);
            } else {
                eff.push(Effect::SendPaddle { to: *peer_addr, player: 1 });
            }
        }
        eff
    }
}

} // verus!
