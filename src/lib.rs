//! Solutions to a series of daily puzzles over integers and text, each a
//! small verified computation: calibration values, cube games, an engine
//! schematic, scratchcards, an almanac of interval maps, boat races, camel
//! cards, a network walk and sequence extrapolation.
//!
//! The centrepiece is the almanac: half-open integer intervals sent through
//! an ordered chain of stages of fixed-offset rules, split wherever they
//! cross the edge of a rule's source.
pub mod text;
pub mod totals;

pub mod almanac;
pub mod almanac_laws;
pub mod almanac_parse;
pub mod almanac_values;

pub mod calibration;
pub mod camel_cards;
pub mod cubes;
pub mod network;
pub mod oasis;
pub mod races;
pub mod schematic;
pub mod scratchcards;
