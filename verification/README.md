# tt

Terminal table tennis for two players on a local network: players find each
other by UDP broadcast, one challenges, the other accepts, and the host runs
the ball physics while both sides send their paddles.

## Layout

- `src/` — the verified library (Verus):
  - `game.rs` — scoring, winning by two, who serves, spin choices, the way
    the held keys push the paddle, and the
    phase encoding the host sends to the guest, with the laws of serving and
    winning;
  - `net.rs` — announcing ourselves, the table of peers and when they expire,
    and the lobby's sorted list;
  - `addrs.rs` — dotted-decimal IPv4 parsing and the broadcast addresses read
    from an interface listing;
  - `session.rs` — the screens (lobby, waiting, challenged, playing), key
    presses and received messages as state transitions with effects, and the
    messages each side sends every frame;
  - `ui.rs` — the texts of the screens (score bar, game-over dialog, lobby
    entries) and the placement of dialogs;
  - `version.rs` — how release versions compare: a semantic version by
    semver precedence (pre-release identifiers, build metadata ignored), any
    other string by its dot-separated pieces that parse as numbers; with the
    laws of the order;
  - `update.rs` — whether a release is newer, the release tag in the API
    response, the platform's asset, the download address and the restart
    arguments of the self-update;
  - `text.rs` — splitting, searching, words and decimal numbers.
- `app/` — the program: terminal, sockets and serialization, the floating-point
  ball and paddle physics, drawing, and the update's downloads.
- `tests/` — tests of the library.
