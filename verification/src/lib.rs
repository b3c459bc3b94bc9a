//! A verified engine for inspecting and editing a single 64-bit value
//! through synchronized representations: individual bits, hexadecimal,
//! decimal, octal, binary, and a human-readable byte-size string.
//!
//! `radix` converts between numeric strings and `u64` values in bases
//! 2, 8, 10 and 16; `size` parses and formats composite byte-size
//! expressions such as `"1K 512B"`; `state` keeps all textual
//! representations of the one value consistent under edits, bit
//! toggles and shifts.
pub mod radix;
pub mod size;
pub mod state;
