//! Terminal table tennis for two players on a local network: the rules of a
//! match, finding other players, the session's screens and key handling, the
//! texts shown, and the decisions of the self-update.

pub mod addrs;
pub mod game;
pub mod net;
pub mod session;
pub mod text;
pub mod ui;
pub mod update;
pub mod version;
