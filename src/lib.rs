//! Bit-exact packing of ordered, narrow-width fields into integers and bytes.
//!
//! A declaration (`schema::BitfieldStruct`) and its settings (`schema::Config`)
//! are checked once by `expand`, which yields a `schema::Layout`. The layout
//! then works on records in two representations: `codec::Record`, one slot per
//! field that is not padding, which maps to a single unsigned integer and to little-endian bytes
//! and back; and `packed::PackedRecord`, the bytes alone. Field accessors
//! never disturb neighbouring fields; `laws` states and proves the round trips
//! and the independence of fields.
pub mod arith;
pub mod codec;
pub mod laws;
pub mod model;
pub mod packed;
pub mod push_pop;
pub mod schema;
