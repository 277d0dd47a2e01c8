//! Chess endgame search over small boards: board geometry and move
//! generation over oracles, retrograde ground truth, and region-based
//! (superposed) evaluation.

pub mod board;
pub mod text;
pub mod retro;
pub mod narrow;
pub mod absmove;
pub mod certs;
pub mod cert;
pub mod symcert;
pub mod rel;
pub mod synth;
