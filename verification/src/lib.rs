//! Core of a minimal init daemon: the unit/service data model and registry,
//! mount-flag resolution, the service state machine with its reaping and
//! restart logic, and the framed control-plane protocol. Everything here is
//! verified; process spawning, file and socket I/O, and serialization live in
//! the surrounding program.

pub mod config;
pub mod daemon;
pub mod ipc;
pub mod mount;
pub mod names;
pub mod ser;
pub mod services;
pub mod units;
