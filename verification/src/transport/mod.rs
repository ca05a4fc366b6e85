//! Transport: the Noise_IK handshake machine, sessions, relays, and the
//! authority decisions over parsed envelopes.

pub mod resolver;
pub mod verify;
pub mod binding;
pub mod grant_trace;
pub mod listener;
pub mod token;
pub mod render;
pub mod historical;
pub mod evidence;
pub mod mac1;
pub mod noise;
pub mod handshake;
pub mod session;
pub mod reassembly;
pub mod replay;
pub mod dag;
pub mod relay;
pub mod relay_store;
pub mod sync;
pub mod dispatch;
