//! An ecosystem of deer and plants on a bounded plane, in fixed point.
//!
//! Deer search for plants, hunt them, eat them, and wander where they find
//! none; they have fawns when they are happy and leave when they are out
//! of happiness. Plants set neighbours on a timer, the fewer the more
//! plants there are. The crate holds the rules and the state; a host
//! supplies the time that each tick took and draws what it is given.
//!
//! Lengths are whole numbers of steps (`geometry::UNIT` to a world unit),
//! times are whole microseconds, and chances are fractions of
//! `plant::ROLL_SCALE`, so that every decision is exact. Each function that
//! takes a chance comes in two forms: one that is handed its draws, whose
//! contract says what comes of them, and one that draws for itself and
//! does what the first does on some fair draws.

#![allow(unused_imports)]

pub mod clock;
pub mod deer;
pub mod geometry;
pub mod herd;
pub mod plant;
pub mod population;
pub mod random;
pub mod sim;
pub mod store;
