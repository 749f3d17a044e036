use tt::game::{paddle_direction, Game, Phase};

fn at(s0: u32, s1: u32) -> Game {
    let mut m = Game::new();
    m.scores = [s0, s1];
    m
}

#[test]
fn new_match_is_fresh() {
    let m = Game::new();
    assert_eq!(m.scores, [0, 0]);
    assert_eq!(m.phase, Phase::Serving { server: 0 });
    assert_eq!(m.rally_hits, 0);
    assert_eq!(m.spin, [0, 0]);
}

#[test]
fn award_point_counts_and_pauses() {
    let mut m = at(3, 4);
    m.award_point(1);
    assert_eq!(m.scores, [3, 5]);
    assert_eq!(m.phase, Phase::Scored { winner: 1 });
}

#[test]
fn first_to_eleven_wins() {
    let mut m = at(11, 9);
    assert!(!m.after_point());
    assert_eq!(m.phase, Phase::GameOver { winner: 0 });
    let mut m = at(4, 11);
    assert!(!m.after_point());
    assert_eq!(m.phase, Phase::GameOver { winner: 1 });
}

#[test]
fn must_win_by_two() {
    let mut m = at(11, 10);
    assert!(m.after_point());
    assert_eq!(m.phase, Phase::Serving { server: 1 });
    let mut m = at(12, 10);
    assert!(!m.after_point());
    assert_eq!(m.phase, Phase::GameOver { winner: 0 });
    let mut m = at(10, 12);
    m.after_point();
    assert_eq!(m.phase, Phase::GameOver { winner: 1 });
}

#[test]
fn serve_changes_every_two_points() {
    let servers: Vec<usize> = [(0, 0), (1, 0), (1, 1), (2, 1), (2, 2), (3, 2)]
        .iter()
        .map(|&(a, b)| {
            let mut m = at(a, b);
            m.after_point();
            match m.phase {
                Phase::Serving { server } => server,
                _ => panic!("game over too early"),
            }
        })
        .collect();
    assert_eq!(servers, vec![0, 0, 1, 1, 0, 0]);
}

#[test]
fn serve_changes_every_point_at_deuce() {
    let servers: Vec<usize> = [(10, 10), (11, 10), (11, 11), (12, 11)]
        .iter()
        .map(|&(a, b)| {
            let mut m = at(a, b);
            m.after_point();
            match m.phase {
                Phase::Serving { server } => server,
                _ => panic!("game over too early"),
            }
        })
        .collect();
    assert_eq!(servers, vec![0, 1, 0, 1]);
}

#[test]
fn rally_counts_hits() {
    let mut m = Game::new();
    m.serve();
    assert_eq!(m.phase, Phase::Rally);
    m.record_hit();
    m.record_hit();
    assert_eq!(m.rally_hits, 2);
    m.serve();
    assert_eq!(m.rally_hits, 0);
}

#[test]
fn phase_codes() {
    let mut m = Game::new();
    m.phase = Phase::Serving { server: 1 };
    assert_eq!(m.phase_code(), (0, 1, 0));
    m.phase = Phase::Rally;
    assert_eq!(m.phase_code(), (1, 0, 0));
    m.phase = Phase::Scored { winner: 1 };
    assert_eq!(m.phase_code(), (2, 0, 1));
    m.phase = Phase::GameOver { winner: 0 };
    assert_eq!(m.phase_code(), (3, 0, 0));
}

#[test]
fn phase_update_roundtrip() {
    for p in [
        Phase::Serving { server: 1 },
        Phase::Rally,
        Phase::Scored { winner: 0 },
        Phase::GameOver { winner: 1 },
    ] {
        let mut host = Game::new();
        host.phase = p;
        host.scores = [7, 5];
        let (code, server, winner) = host.phase_code();
        let mut guest = Game::new();
        guest.phase = Phase::Rally;
        guest.apply_phase_update(code, host.scores, server, winner);
        assert_eq!(guest.phase, p);
        assert_eq!(guest.scores, [7, 5]);
    }
}

#[test]
fn unknown_phase_code_keeps_phase() {
    let mut m = Game::new();
    m.phase = Phase::Rally;
    assert!(!m.apply_phase_update(9, [1, 2], 0, 0));
    assert_eq!(m.phase, Phase::Rally);
    assert_eq!(m.scores, [1, 2]);
}

#[test]
fn entering_serve_is_reported_once() {
    let mut m = Game::new();
    m.phase = Phase::Rally;
    assert!(m.apply_phase_update(0, [1, 0], 1, 0));
    assert!(!m.apply_phase_update(0, [1, 0], 1, 0));
}

#[test]
fn spin_toggles() {
    let mut m = Game::new();
    m.toggle_spin(0, 1);
    assert_eq!(m.spin, [1, 0]);
    m.toggle_spin(0, 1);
    assert_eq!(m.spin, [0, 0]);
    m.toggle_spin(1, -1);
    m.toggle_spin(1, 1);
    assert_eq!(m.spin, [0, 1]);
    m.set_spin(0, -1);
    assert_eq!(m.spin, [-1, 1]);
}

#[test]
fn huge_scores_follow_the_rules() {
    let mut m = at(u32::MAX, 0);
    assert!(!m.after_point());
    assert_eq!(m.phase, Phase::GameOver { winner: 0 });
    let mut m = at(u32::MAX, u32::MAX - 1);
    assert!(m.after_point());
    assert_eq!(m.phase, Phase::Serving { server: 1 });
}

#[test]
fn paddle_direction_from_held_keys() {
    assert_eq!(paddle_direction(true, false), -1);
    assert_eq!(paddle_direction(false, true), 1);
    assert_eq!(paddle_direction(true, true), 0);
    assert_eq!(paddle_direction(false, false), 0);
}
