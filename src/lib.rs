//! Traffic-shape obfuscation: every emitted frame has a length taken from a
//! fixed pattern, real frames are wrapped in IP-in-IP and padded, and chaff
//! fills the slots for which no real frame is waiting.
pub mod pattern;
pub mod queues;
pub mod hardware_obf;
pub mod deobfuscate;
pub mod pacer;
pub mod ingress;
