use tt::game::Phase;
use tt::ui::{
    centered_rect, game_over_text, lobby_entry, phase_label, result_line, score_bar, score_label, spin_label, Area,
};

#[test]
fn score_labels() {
    assert_eq!(score_label("Ann", 0), " Ann: 0 ");
    assert_eq!(score_label("Bob", 11), " Bob: 11 ");
    assert_eq!(score_label("X", 4294967295), " X: 4294967295 ");
}

#[test]
fn phase_labels() {
    assert_eq!(phase_label(Phase::Serving { server: 0 }, 0, "Bob", 0), "YOUR SERVE  [Space]");
    assert_eq!(phase_label(Phase::Serving { server: 1 }, 0, "Bob", 0), "Bob's serve");
    assert_eq!(phase_label(Phase::Rally, 1, "Bob", 12), "Rally  (12 hits)");
    assert_eq!(phase_label(Phase::Scored { winner: 1 }, 1, "Bob", 3), "You scored!");
    assert_eq!(phase_label(Phase::Scored { winner: 0 }, 1, "Bob", 3), "Bob scored!");
    assert_eq!(phase_label(Phase::GameOver { winner: 0 }, 0, "Bob", 3), "YOU WIN! [Q] quit");
    assert_eq!(phase_label(Phase::GameOver { winner: 1 }, 0, "Bob", 3), "Bob wins! [Q] quit");
}

#[test]
fn spin_labels() {
    assert_eq!(spin_label(1), ("[W] TOPSPIN", true));
    assert_eq!(spin_label(-1), ("[S] BACKSPIN", true));
    assert_eq!(spin_label(0), ("[W/S] Spin", false));
    assert_eq!(spin_label(5), ("[W/S] Spin", false));
}

#[test]
fn result_and_lobby_lines() {
    assert_eq!(result_line("Ann", 11, 7, "Bob"), "  Ann  11 — 7  Bob");
    assert_eq!(lobby_entry(true, "Bob", 0xc0a8_0105), " > Bob (192.168.1.5)");
    assert_eq!(lobby_entry(false, "Eve", 0), "   Eve (0.0.0.0)");
}

#[test]
fn dialogs_are_centred() {
    let area = Area { x: 0, y: 0, width: 80, height: 24 };
    assert_eq!(centered_rect(42, 8, area), Area { x: 19, y: 8, width: 42, height: 8 });
    let small = Area { x: 2, y: 1, width: 30, height: 5 };
    assert_eq!(centered_rect(42, 8, small), Area { x: 2, y: 1, width: 30, height: 5 });
    let edge = Area { x: 65530, y: 0, width: 5, height: 5 };
    assert_eq!(centered_rect(3, 3, edge), Area { x: 65531, y: 1, width: 3, height: 3 });
}

#[test]
fn score_bar_puts_own_score_first() {
    let (mine, theirs) = score_bar([4, 9], 1, "Ann", "Bob");
    assert_eq!(mine, " Ann: 9 ");
    assert_eq!(theirs, " Bob: 4 ");
    let (mine, theirs) = score_bar([4, 9], 0, "Ann", "Bob");
    assert_eq!(mine, " Ann: 4 ");
    assert_eq!(theirs, " Bob: 9 ");
}

#[test]
fn game_over_text_for_winner_and_loser() {
    let t = game_over_text(1, 1, [7, 11], "Ann", "Bob");
    assert!(t.won);
    assert_eq!(t.title, "  YOU WIN!");
    assert_eq!(t.border, " Victory ");
    assert_eq!(t.result, "  Ann  11 — 7  Bob");
    let t = game_over_text(1, 0, [7, 11], "Ann", "Bob");
    assert!(!t.won);
    assert_eq!(t.title, "  YOU LOSE");
    assert_eq!(t.border, " Game Over ");
    assert_eq!(t.result, "  Ann  7 — 11  Bob");
}
