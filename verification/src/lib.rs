//! A real-time presence and visitor-counting gateway core.
//!
//! Rooms track their members under a heartbeat-driven TTL liveness rule and
//! publish an effective count on a latch; a registry maps names to rooms and
//! reaps empty ones; a metadata store counts unique visitor sessions; an
//! origin policy guards the upgrade; and a fixed JSON envelope carries every
//! business event. The I/O shell around this core lives outside the library.
pub mod api;
pub mod config;
pub mod events;
pub mod meta;
pub mod origin;
pub mod registry;
pub mod room;
pub mod session;
pub mod strutil;
pub mod time;
