//! Wire codec for one inventory-slot record of a game network protocol.
//!
//! A slot is either empty, marked by the sentinel block id `-1`, or present,
//! in which case a count, a damage value, and an optional metadata payload
//! (the enchantment list) follow on the wire. The metadata payload is
//! carried in the compound-tag format of the `nbt` crate; its leading type
//! byte doubles as the presence marker, with a single zero byte standing
//! for "no payload".

pub mod nbt_codec;
pub mod slot;
pub mod stream;
