//! Decoder for the binary world-map layout: a forward-only reader over a byte
//! buffer that produces the map's terrain, tile-type catalog and events.

pub mod cursor;
pub mod records;
pub mod laws;
pub mod truncation;
