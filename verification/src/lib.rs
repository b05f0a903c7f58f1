//! Verified core of `wizctl`, a controller for WiZ smart bulbs on the local
//! network: the parsers for colors, brightness, Kelvin temperatures, scenes
//! and the command line; the persisted state model; what is sent to a bulb
//! and how its reports are adopted; the background worker's scheduling
//! decisions; median-cut palette extraction; and the text the command line
//! and the XFCE Genmon panel show.

pub mod text;
pub mod colors;
pub mod state;
pub mod bulb;
pub mod worker;
pub mod palette;
pub mod genmon;
pub mod report;
pub mod cli;
pub mod popover;
