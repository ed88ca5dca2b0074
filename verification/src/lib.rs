//! Discovery and concurrent orchestration of docker-compose service
//! definitions: a cycle-safe directory walk that turns descriptor files into
//! addressable service units, deterministic grouping of descriptor variants,
//! compose command construction, concurrent dispatch bookkeeping, and the
//! decision logic of the interactive session (menus, settings, log relay).
//!
//! Everything here is pure logic over plain values; the surrounding binary
//! performs the file system, process and terminal work and feeds the results
//! back in.

pub mod command;
pub mod config;
pub mod dispatch;
pub mod grouping;
pub mod matching;
pub mod relay;
pub mod service;
pub mod strutil;
pub mod ui;
pub mod walker;
