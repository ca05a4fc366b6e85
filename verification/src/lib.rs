//! Bolina protocol head: wire codec, intent and evidence ledgers, the
//! Noise_IK transport state, and the authority decisions over them.

pub mod crypto;
pub mod daemon;
pub mod ca;
pub mod codec;
pub mod control;
pub mod control_api;
pub mod http_parse;
pub mod keys;
pub mod ledger_envelope;
pub mod relay_serve;
pub mod state;
pub mod transport;
