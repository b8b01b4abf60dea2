//! The rules of an item randomizer for Metroid Prime disc images, verified.

pub mod digits;
pub mod bignum;
pub mod text;
pub mod layout;
pub mod reading;
pub mod random;
pub mod model;
pub mod objects;
pub mod tables;
pub mod area;
pub mod rooms;
pub mod placing;
pub mod patched_rooms;
pub mod pak;
pub mod worlds;
pub mod starting_items;
pub mod starting;
pub mod totems;
pub mod telling;
pub mod files;
pub mod resources;
pub mod supply;
pub mod patch;
pub mod discs;
pub mod choices;
pub mod walks;
pub mod parts;
pub mod progress;
