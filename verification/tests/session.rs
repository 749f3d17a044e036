use tt::net::Addr;
use tt::game::Phase;
use tt::session::{App, AppState, Effect, Incoming, Key, Outgoing};

const BOB: Addr = Addr { ip: 0x0a00_0002, port: 6000 };
const CAROL: Addr = Addr { ip: 0x0a00_0003, port: 7000 };

fn lobby_with_peers() -> App {
    let mut app = App::new("Ann".to_string(), 4000);
    let base = app.net.session_id.wrapping_add(1);
    app.net.record_announce(base, "Bob".to_string(), BOB.ip, BOB.port, 0);
    app.net.record_announce(base.wrapping_add(1), "Carol".to_string(), CAROL.ip, CAROL.port, 0);
    app
}

fn playing(is_host: bool) -> App {
    let mut app = App::new("Ann".to_string(), 4000);
    app.net.record_announce(app.net.session_id.wrapping_add(1), "Bob".to_string(), BOB.ip, BOB.port, 0);
    if is_host {
        app.handle_key(Key::Enter);
        let eff = app.on_message(BOB, Incoming::Accept { name: "Bob".to_string() });
        assert!(matches!(eff[..], [Effect::NewGame]));
    } else {
        app.on_message(BOB, Incoming::Challenge { name: "Bob".to_string() });
        app.handle_key(Key::Char('y'));
    }
    assert!(app.is_playing());
    app
}

fn game_phase(app: &App) -> Phase {
    match &app.state {
        AppState::Playing { game, .. } => game.phase,
        _ => panic!("not playing"),
    }
}

fn spins(app: &App) -> [i8; 2] {
    match &app.state {
        AppState::Playing { game, .. } => game.spin,
        _ => panic!("not playing"),
    }
}

#[test]
fn new_app_starts_in_lobby() {
    let app = App::new("Ann".to_string(), 4000);
    assert!(matches!(app.state, AppState::Lobby));
    assert!(!app.should_quit);
    assert_eq!(app.lobby_selection, 0);
    assert_eq!(app.net.name, "Ann");
}

#[test]
fn quit_from_lobby() {
    let mut app = App::new("Ann".to_string(), 4000);
    assert!(app.handle_key(Key::Char('q')).is_empty());
    assert!(app.should_quit);
    let mut app = App::new("Ann".to_string(), 4000);
    app.handle_key(Key::Esc);
    assert!(app.should_quit);
}

#[test]
fn lobby_cursor_stays_in_list() {
    let mut app = lobby_with_peers();
    app.handle_key(Key::Up);
    assert_eq!(app.lobby_selection, 0);
    app.handle_key(Key::Down);
    assert_eq!(app.lobby_selection, 1);
    app.handle_key(Key::Char('j'));
    assert_eq!(app.lobby_selection, 1);
    app.handle_key(Key::Char('k'));
    assert_eq!(app.lobby_selection, 0);
    let mut empty = App::new("Ann".to_string(), 4000);
    empty.handle_key(Key::Down);
    assert_eq!(empty.lobby_selection, 0);
}

#[test]
fn enter_challenges_selected_peer() {
    let mut app = lobby_with_peers();
    app.handle_key(Key::Down);
    let eff = app.handle_key(Key::Enter);
    match &eff[..] {
        [Effect::Send { to, msg: Outgoing::Challenge { name } }] => {
            assert_eq!(*to, CAROL);
            assert_eq!(name, "Ann");
        }
        other => panic!("unexpected effects {other:?}"),
    }
    match &app.state {
        AppState::WaitingAccept { peer_addr, peer_name } => {
            assert_eq!(*peer_addr, CAROL);
            assert_eq!(peer_name, "Carol");
        }
        _ => panic!("not waiting"),
    }
}

#[test]
fn enter_with_no_peers_does_nothing() {
    let mut app = App::new("Ann".to_string(), 4000);
    assert!(app.handle_key(Key::Enter).is_empty());
    assert!(matches!(app.state, AppState::Lobby));
}

#[test]
fn only_challenged_peer_can_accept() {
    let mut app = lobby_with_peers();
    app.handle_key(Key::Enter);
    assert!(app.on_message(CAROL, Incoming::Accept { name: "Carol".to_string() }).is_empty());
    assert!(matches!(app.state, AppState::WaitingAccept { .. }));
    app.on_message(BOB, Incoming::Accept { name: "Bob".to_string() });
    match &app.state {
        AppState::Playing { game, is_host, peer_addr } => {
            assert!(*is_host);
            assert_eq!(*peer_addr, BOB);
            assert_eq!(game.scores, [0, 0]);
        }
        _ => panic!("not playing"),
    }
    assert_eq!(app.opponent_name, "Bob");
}

#[test]
fn decline_returns_to_lobby() {
    let mut app = lobby_with_peers();
    app.handle_key(Key::Enter);
    app.on_message(CAROL, Incoming::Decline);
    assert!(matches!(app.state, AppState::WaitingAccept { .. }));
    app.on_message(BOB, Incoming::Decline);
    assert!(matches!(app.state, AppState::Lobby));
}

#[test]
fn esc_cancels_waiting() {
    let mut app = lobby_with_peers();
    app.handle_key(Key::Enter);
    app.handle_key(Key::Char('x'));
    assert!(matches!(app.state, AppState::WaitingAccept { .. }));
    app.handle_key(Key::Esc);
    assert!(matches!(app.state, AppState::Lobby));
}

#[test]
fn challenge_accepted_by_key() {
    let mut app = App::new("Ann".to_string(), 4000);
    app.on_message(BOB, Incoming::Challenge { name: "Bob".to_string() });
    assert!(matches!(app.state, AppState::Challenged { .. }));
    let eff = app.handle_key(Key::Enter);
    match &eff[..] {
        [Effect::Send { to, msg: Outgoing::Accept { name } }, Effect::NewGame] => {
            assert_eq!(*to, BOB);
            assert_eq!(name, "Ann");
        }
        other => panic!("unexpected effects {other:?}"),
    }
    match &app.state {
        AppState::Playing { is_host, peer_addr, .. } => {
            assert!(!*is_host);
            assert_eq!(*peer_addr, BOB);
        }
        _ => panic!("not playing"),
    }
    assert_eq!(app.opponent_name, "Bob");
}

#[test]
fn challenge_declined_by_key() {
    let mut app = App::new("Ann".to_string(), 4000);
    app.on_message(BOB, Incoming::Challenge { name: "Bob".to_string() });
    let eff = app.handle_key(Key::Char('n'));
    assert!(matches!(eff[..], [Effect::Send { to: BOB, msg: Outgoing::Decline }]));
    assert!(matches!(app.state, AppState::Lobby));
}

#[test]
fn challenged_ignores_messages() {
    let mut app = App::new("Ann".to_string(), 4000);
    app.on_message(BOB, Incoming::Challenge { name: "Bob".to_string() });
    app.on_message(CAROL, Incoming::Challenge { name: "Carol".to_string() });
    match &app.state {
        AppState::Challenged { from_addr, from_name } => {
            assert_eq!(*from_addr, BOB);
            assert_eq!(from_name, "Bob");
        }
        _ => panic!("not challenged"),
    }
}

#[test]
fn quit_game_tells_opponent() {
    let mut app = playing(true);
    let eff = app.handle_key(Key::Char('q'));
    assert!(matches!(eff[..], [Effect::Send { to: BOB, msg: Outgoing::Quit }]));
    assert!(matches!(app.state, AppState::Lobby));
    assert!(!app.should_quit);
}

#[test]
fn opponent_quit_returns_to_lobby() {
    let mut app = playing(false);
    app.on_message(CAROL, Incoming::Quit);
    assert!(matches!(app.state, AppState::Lobby));
}

#[test]
fn movement_keys_hold_paddle() {
    let mut app = playing(true);
    assert!(matches!(app.handle_key(Key::Char('a'))[..], [Effect::HoldLeft]));
    assert!(matches!(app.handle_key(Key::Right)[..], [Effect::HoldRight]));
}

#[test]
fn spin_keys_toggle_local_spin() {
    let mut host = playing(true);
    host.handle_key(Key::Char('w'));
    assert_eq!(spins(&host), [1, 0]);
    host.handle_key(Key::Char('s'));
    assert_eq!(spins(&host), [-1, 0]);
    host.handle_key(Key::Char('s'));
    assert_eq!(spins(&host), [0, 0]);
    let mut guest = playing(false);
    guest.handle_key(Key::Char('w'));
    assert_eq!(spins(&guest), [0, 1]);
}

#[test]
fn help_toggles() {
    let mut app = playing(true);
    app.handle_key(Key::Char('h'));
    assert!(app.show_help);
    app.handle_key(Key::Char('h'));
    assert!(!app.show_help);
}

#[test]
fn host_serves_on_next_tick() {
    let mut app = playing(true);
    assert!(app.handle_key(Key::Char(' ')).is_empty());
    assert!(app.pending_serve);
    assert_eq!(app.start_pending_serve(), Some(0));
    assert!(!app.pending_serve);
    assert_eq!(game_phase(&app), Phase::Rally);
    assert_eq!(app.start_pending_serve(), None);
}

#[test]
fn guest_asks_host_to_serve() {
    let mut app = playing(false);
    // Player 0 serves first: the guest's space does nothing.
    assert!(app.handle_key(Key::Char(' ')).is_empty());
    app.on_message(BOB, Incoming::PhaseUpdate { phase_code: 0, scores: [1, 1], server: 1, winner: 0 });
    let eff = app.handle_key(Key::Char(' '));
    assert!(matches!(eff[..], [Effect::RequestServe { to: BOB, player: 1 }]));
    assert!(!app.pending_serve);
    assert!(app.guest_holds_ball());
}

#[test]
fn host_takes_serve_request() {
    let mut app = playing(true);
    if let AppState::Playing { game, .. } = &mut app.state {
        game.phase = Phase::Serving { server: 1 };
    }
    let eff = app.on_message(BOB, Incoming::PaddleState { spin_intent: -1, serve: true });
    assert!(matches!(eff[..], [Effect::SetPaddle { player: 1 }]));
    assert!(app.pending_serve);
    assert_eq!(spins(&app), [0, -1]);
    assert_eq!(app.start_pending_serve(), Some(1));
}

#[test]
fn guest_follows_host_state() {
    let mut app = playing(false);
    assert!(matches!(app.on_message(BOB, Incoming::BallState)[..], [Effect::ApplyBall]));
    let eff = app.on_message(BOB, Incoming::PhaseUpdate { phase_code: 1, scores: [2, 3], server: 0, winner: 0 });
    assert!(eff.is_empty());
    assert_eq!(game_phase(&app), Phase::Rally);
    let eff = app.on_message(BOB, Incoming::PhaseUpdate { phase_code: 0, scores: [2, 4], server: 1, winner: 0 });
    assert!(matches!(eff[..], [Effect::ClearTrail]));
    match &app.state {
        AppState::Playing { game, .. } => assert_eq!(game.scores, [2, 4]),
        _ => panic!("not playing"),
    }
}

#[test]
fn host_ignores_guest_ball_and_phase() {
    let mut app = playing(true);
    assert!(app.on_message(BOB, Incoming::BallState).is_empty());
    app.on_message(BOB, Incoming::PhaseUpdate { phase_code: 3, scores: [9, 9], server: 0, winner: 1 });
    assert_eq!(game_phase(&app), Phase::Serving { server: 0 });
}

#[test]
fn local_player_by_role() {
    assert_eq!(App::local_player(true), 0);
    assert_eq!(App::local_player(false), 1);
}

#[test]
fn host_sends_ball_phase_and_paddle_each_tick() {
    let mut app = playing(true);
    if let AppState::Playing { game, .. } = &mut app.state {
        game.scores = [3, 5];
        game.phase = Phase::GameOver { winner: 1 };
    }
    let eff = app.tick_messages();
    assert_eq!(eff.len(), 3);
    assert!(matches!(eff[0], Effect::SendBall { to: BOB }));
    assert!(matches!(
        eff[1],
        Effect::SendPhase { to: BOB, phase_code: 3, scores: [3, 5], server: 0, winner: 1 }
    ));
    assert!(matches!(eff[2], Effect::SendPaddle { to: BOB, player: 0 }));
}

#[test]
fn guest_sends_only_its_paddle_each_tick() {
    let app = playing(false);
    let eff = app.tick_messages();
    assert!(matches!(eff[..], [Effect::SendPaddle { to: BOB, player: 1 }]));
}

#[test]
fn lobby_sends_nothing_per_tick() {
    let app = App::new("Ann".to_string(), 4000);
    assert!(app.tick_messages().is_empty());
}

#[test]
fn help_key_twice_restores() {
    let mut app = playing(true);
    let before = app.show_help;
    assert!(app.key_game(Key::Char('h')).is_empty());
    assert_eq!(app.show_help, !before);
    assert!(app.key_game(Key::Char('h')).is_empty());
    assert_eq!(app.show_help, before);
}

#[test]
fn spin_key_twice_restores() {
    let mut app = playing(false);
    assert_eq!(spins(&app), [0, 0]);
    assert!(app.key_game(Key::Char('s')).is_empty());
    assert_eq!(spins(&app), [0, -1]);
    assert!(app.key_game(Key::Char('s')).is_empty());
    assert_eq!(spins(&app), [0, 0]);
}

#[test]
fn lobby_cursor_stays_on_list() {
    let mut app = lobby_with_peers();
    assert!(app.key_lobby(Key::Down).is_empty());
    assert_eq!(app.lobby_selection, 1);
    assert!(app.key_lobby(Key::Char('j')).is_empty());
    assert_eq!(app.lobby_selection, 1);
    assert!(app.key_lobby(Key::Up).is_empty());
    assert!(app.key_lobby(Key::Char('k')).is_empty());
    assert_eq!(app.lobby_selection, 0);
}
