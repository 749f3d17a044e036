//! What the screens show, as text and areas: labels for scores, phases and
//! spin, the lobby's entries, and the placement of centred dialogs.
use vstd::prelude::*;

use crate::game::Phase;
use crate::text::{all_digits, digit_value, digits_value, is_digit};

verus! {

// ---------------------------------------------------------------------------
// Numbers as text
// ---------------------------------------------------------------------------

pub open spec fn digit_char(d: int) -> char {
    if d == 0 {
        '0'
    } else if d == 1 {
        '1'
    } else if d == 2 {
        '2'
    } else if d == 3 {
        '3'
    } else if d == 4 {
        '4'
    } else if d == 5 {
        '5'
    } else if d == 6 {
        '6'
    } else if d == 7 {
        '7'
    } else if d == 8 {
        '8'
    } else {
        '9'
    }
}

/// The decimal digits of `n`, without leading zeros (how integers display).
pub open spec fn decimal(n: nat) -> Seq<char>
    decreases n,
{
    if n < 10 {
        seq![digit_char(n as int)]
    } else {
        decimal(n / 10).push(digit_char((n % 10) as int))
    }
}

/// The decimal text of `n` denotes `n`: it is made of digits whose value is
/// `n`, and it starts with `0` only when it is the single digit of 0.
pub proof fn lemma_decimal_denotes(n: nat)
    ensures
        decimal(n).len() >= 1,
        all_digits(decimal(n)),
        digits_value(decimal(n)) == n,
        decimal(n)[0] == '0' ==> n == 0 && decimal(n).len() == 1,
    decreases n,
{
    if n < 10 {
        let s = seq![digit_char(n as int)];
        assert(s.drop_last() =~= Seq::<char>::empty());
        assert(digits_value(Seq::<char>::empty()) == 0);
        assert(is_digit(s[0]));
        assert(digit_value(s[0]) == n);
    } else {
        let q = n / 10;
        let r = n % 10;
        lemma_decimal_denotes(q);
        let s = decimal(n);
        assert(s.drop_last() =~= decimal(q));
        let c = digit_char(r as int);
        assert(is_digit(c) && digit_value(c) == r);
        assert(s.last() == c);
        assert forall|i: int| 0 <= i < s.len() implies #[trigger] is_digit(s[i]) by {
            if i < s.len() - 1 {
                assert(s[i] == decimal(q)[i]);
            }
        }
        assert(s[0] == decimal(q)[0]);
        assert(n == q * 10 + r);
    }
}

/// `a.b.c.d` for the address whose 32-bit value is `ip`.
pub open spec fn ipv4_text_spec(ip: u32) -> Seq<char> {
    decimal((ip / 0x100_0000) as nat) + "."@ + decimal(((ip / 0x1_0000) % 256) as nat) + "."@
        + decimal(((ip / 0x100) % 256) as nat) + "."@ + decimal((ip % 256) as nat)
}

fn digit_str(d: u32) -> (s: &'static str)
    requires
        d < 10,
    ensures
        s@ == seq![digit_char(d as int)],
{
    proof {
        reveal_strlit("0");
        reveal_strlit("1");
        reveal_strlit("2");
        reveal_strlit("3");
        reveal_strlit("4");
        reveal_strlit("5");
        reveal_strlit("6");
        reveal_strlit("7");
        reveal_strlit("8");
        reveal_strlit("9");
    }
    if d == 0 {
        "0"
    } else if d == 1 {
        "1"
    } else if d == 2 {
        "2"
    } else if d == 3 {
        "3"
    } else if d == 4 {
        "4"
    } else if d == 5 {
        "5"
    } else if d == 6 {
        "6"
    } else if d == 7 {
        "7"
    } else if d == 8 {
        "8"
    } else {
        "9"
    }
}

/// Appends the decimal digits of `n` to `out`.
pub fn push_decimal(out: &mut String, n: u32)
    ensures
        final(out)@ == old(out)@ + decimal(n as nat),
    decreases n,
{
    if n >= 10 {
        push_decimal(out, n / 10);
    }
    out.append(digit_str(n % 10));
    proof {
        if n < 10 {
            assert(old(out)@ + decimal(n as nat) =~= old(out)@ + seq![digit_char(n as int)]);
        }
    }
}

/// Appends `a.b.c.d` for the address `ip` to `out`.
pub fn push_ipv4(out: &mut String, ip: u32)
    ensures
        final(out)@ == old(out)@ + ipv4_text_spec(ip),
{
    push_decimal(out, ip / 0x100_0000);
    out.append(".");
    push_decimal(out, (ip / 0x1_0000) % 256);
    out.append(".");
    push_decimal(out, (ip / 0x100) % 256);
    out.append(".");
    push_decimal(out, ip % 256);
    proof {
        assert(final(out)@ =~= old(out)@ + ipv4_text_spec(ip));
    }
}

// ---------------------------------------------------------------------------
// Labels of the game screen
// ---------------------------------------------------------------------------

/// ` name: score ` in the score bar.
pub open spec fn score_label_spec(name: Seq<char>, score: u32) -> Seq<char> {
    " "@ + name + ": "@ + decimal(score as nat) + " "@
}

pub fn score_label(name: &str, score: u32) -> (s: String)
    ensures
        s@ == score_label_spec(name@, score),
{
    let mut s = " ".to_owned();
    s.append(name);
    s.append(": ");
    push_decimal(&mut s, score);
    s.append(" ");
    s
}

/// The line under the scores, seen by player `local` whose opponent is
/// called `remote`.
pub open spec fn phase_label_spec(phase: Phase, local: usize, remote: Seq<char>, hits: u32) -> Seq<
    char,
> {
    match phase {
        Phase::Serving { server } => if server == local {
            "YOUR SERVE  [Space]"@
        } else {
            remote + "'s serve"@
        },
        Phase::Rally => "Rally  ("@ + decimal(hits as nat) + " hits)"@,
        Phase::Scored { winner } => if winner == local {
            "You scored!"@
        } else {
            remote + " scored!"@
        },
        Phase::GameOver { winner } => if winner == local {
            "YOU WIN! [Q] quit"@
        } else {
            remote + " wins! [Q] quit"@
        },
    }
}

pub fn phase_label(phase: Phase, local: usize, remote: &str, hits: u32) -> (s: String)
    ensures
        s@ == phase_label_spec(phase, local, remote@, hits),
{
    match phase {
        Phase::Serving { server } => {
            if server == local {
                "YOUR SERVE  [Space]".to_owned()
            } else {
                let mut s = remote.to_owned();
                s.append("'s serve");
                s
            }
        },
        Phase::Rally => {
            let mut s = "Rally  (".to_owned();
            push_decimal(&mut s, hits);
            s.append(" hits)");
            s
        },
        Phase::Scored { winner } => {
            if winner == local {
                "You scored!".to_owned()
            } else {
                let mut s = remote.to_owned();
                s.append(" scored!");
                s
            }
        },
        Phase::GameOver { winner } => {
            if winner == local {
                "YOU WIN! [Q] quit".to_owned()
            } else {
                let mut s = remote.to_owned();
                s.append(" wins! [Q] quit");
                s
            }
        },
    }
}

/// The spin hint of the controls line, and whether a spin is chosen.
pub open spec fn spin_label_spec(intent: i8) -> (Seq<char>, bool) {
    if intent == 1 {
        ("[W] TOPSPIN"@, true)
    } else if intent == -1 {
        ("[S] BACKSPIN"@, true)
    } else {
        ("[W/S] Spin"@, false)
    }
}

pub fn spin_label(intent: i8) -> (r: (&'static str, bool))
    ensures
        (r.0@, r.1) == spin_label_spec(intent),
{
    if intent == 1 {
        ("[W] TOPSPIN", true)
    } else if intent == -1 {
        ("[S] BACKSPIN", true)
    } else {
        ("[W/S] Spin", false)
    }
}

/// The final score line of the game-over dialog.
pub open spec fn result_line_spec(local: Seq<char>, mine: u32, theirs: u32, remote: Seq<char>) -> Seq<
    char,
> {
    "  "@ + local + "  "@ + decimal(mine as nat) + " — "@ + decimal(theirs as nat) + "  "@ + remote
}

pub fn result_line(local: &str, mine: u32, theirs: u32, remote: &str) -> (s: String)
    ensures
        s@ == result_line_spec(local@, mine, theirs, remote@),
{
    let mut s = "  ".to_owned();
    s.append(local);
    s.append("  ");
    push_decimal(&mut s, mine);
    s.append(" — ");
    push_decimal(&mut s, theirs);
    s.append("  ");
    s.append(remote);
    s
}

/// The score bar, seen by player `local`: the local player's name and score,
/// then the opponent's.
pub fn score_bar(scores: [u32; 2], local: usize, local_name: &str, remote_name: &str) -> (r: (String, String))
    requires
        local < 2,
    ensures
        r.0@ == score_label_spec(local_name@, scores[local as int]),
        r.1@ == score_label_spec(remote_name@, scores[1 - local]),
{
    (score_label(local_name, scores[local]), score_label(remote_name, scores[1 - local]))
}

/// What the game-over dialog says to player `local` when `winner` has won.
pub struct GameOverText {
    pub won: bool,
    pub title: &'static str,
    pub border: &'static str,
    pub result: String,
}

pub fn game_over_text(winner: usize, local: usize, scores: [u32; 2], local_name: &str, remote_name: &str) -> (t:
    GameOverText)
    requires
        local < 2,
    ensures
        t.won == (winner == local),
        t.title@ == (if winner == local {
            "  YOU WIN!"@
        } else {
            "  YOU LOSE"@
        }),
        t.border@ == (if winner == local {
            " Victory "@
        } else {
            " Game Over "@
        }),
        t.result@ == result_line_spec(local_name@, scores[local as int], scores[1 - local], remote_name@),
{
    let won = winner == local;
    let result = result_line(local_name, scores[local], scores[1 - local], remote_name);
    if won {
        GameOverText { won, title: "  YOU WIN!", border: " Victory ", result }
    } else {
        GameOverText { won, title: "  YOU LOSE", border: " Game Over ", result }
    }
}

/// One line of the lobby's list: a marker for the selected entry, the
/// peer's name and its address.
pub open spec fn lobby_entry_spec(selected: bool, name: Seq<char>, ip: u32) -> Seq<char> {
    (if selected {
        " > "@
    } else {
        "   "@
    }) + name + " ("@ + ipv4_text_spec(ip) + ")"@
}

pub fn lobby_entry(selected: bool, name: &str, ip: u32) -> (s: String)
    ensures
        s@ == lobby_entry_spec(selected, name@, ip),
{
    let mut s = if selected {
        " > ".to_owned()
    } else {
        "   ".to_owned()
    };
    s.append(name);
    s.append(" (");
    push_ipv4(&mut s, ip);
    s.append(")");
    s
}

// ---------------------------------------------------------------------------
// Dialog placement
// ---------------------------------------------------------------------------

/// A rectangle of terminal cells.
#[derive(Clone, Copy, Debug, PartialEq, Eq, Structural)]
pub struct Area {
    pub x: u16,
    pub y: u16,
    pub width: u16,
    pub height: u16,
}

/// A rectangle at `x`, `y` whose size is clamped so that its right and bottom
/// edges stay within the coordinate range (as ratatui's `Rect::new` does).
pub open spec fn clamped_area(x: u16, y: u16, width: u16, height: u16) -> Area {
    Area {
        x,
        y,
        width: if width > u16::MAX - x {
            (u16::MAX - x) as u16
        } else {
            width
        },
        height: if height > u16::MAX - y {
            (u16::MAX - y) as u16
        } else {
            height
        },
    }
}

/// Where a dialog of `width` by `height` cells goes in `area`: centred, and
/// no larger than the area.
pub open spec fn centered_spec(width: u16, height: u16, area: Area) -> Area {
    let dx = if area.width > width {
        area.width - width
    } else {
        0
    };
    let dy = if area.height > height {
        area.height - height
    } else {
        0
    };
    clamped_area(
        (area.x + dx / 2) as u16,
        (area.y + dy / 2) as u16,
        if width < area.width {
            width
        } else {
            area.width
        },
        if height < area.height {
            height
        } else {
            area.height
        },
    )
}

/// A dialog placed in an area that lies within the coordinate range is as
/// large as asked but no larger than the area, lies inside the area, and is
/// centred: the space left of it equals the space right of it, or is one
/// cell less (the same above and below).
pub proof fn lemma_centered_inside(width: u16, height: u16, area: Area)
    requires
        area.x + area.width <= u16::MAX,
        area.y + area.height <= u16::MAX,
    ensures
        ({
            let r = centered_spec(width, height, area);
            &&& r.width == (if width < area.width { width } else { area.width })
            &&& r.height == (if height < area.height { height } else { area.height })
            &&& area.x <= r.x && r.x + r.width <= area.x + area.width
            &&& area.y <= r.y && r.y + r.height <= area.y + area.height
            &&& r.x - area.x <= (area.x + area.width) - (r.x + r.width) <= r.x - area.x + 1
            &&& r.y - area.y <= (area.y + area.height) - (r.y + r.height) <= r.y - area.y + 1
        }),
{
}

pub fn centered_rect(width: u16, height: u16, area: Area) -> (r: Area)
    requires
        area.x + (if area.width > width {
            area.width - width
        } else {
            0
        }) / 2 <= u16::MAX,
        area.y + (if area.height > height {
            area.height - height
        } else {
            0
        }) / 2 <= u16::MAX,
    ensures
        r == centered_spec(width, height, area),
{
    let dx = if area.width > width {
        area.width - width
    } else {
        0
    };
    let dy = if area.height > height {
        area.height - height
    } else {
        0
    };
    let x = area.x + dx / 2;
    let y = area.y + dy / 2;
    let w = if width < area.width {
        width
    } else {
        area.width
    };
    let h = if height < area.height {
        height
    } else {
        area.height
    };
    let max_w = u16::MAX - x;
    let max_h = u16::MAX - y;
    Area { x, y, width: if w > max_w {
        max_w
    } else {
        w
    }, height: if h > max_h {
        max_h
    } else {
        h
    } }
}

} // verus!
