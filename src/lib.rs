//! Document model of a music-notation editor: the tick-indexed entry store,
//! meter arithmetic, the per-tick projection of a flow, and the structural
//! graph of flows, players, instruments, staves and tracks.

pub mod catalog;
pub mod counts;
pub mod duration;
pub mod engine;
pub mod engrave;
pub mod entries;
pub mod flow;
pub mod keyed;
pub mod keys;
pub mod pitch;
pub mod render;
pub mod score;
pub mod stave;
pub mod structure;
pub mod tempo;
pub mod time_signature;
pub mod track;
pub mod velocity;
