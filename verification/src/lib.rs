//! A comment fan-out edge broker core: a STOMP-like frame codec, the binary
//! comment record codec used on the event bus, the connection registry with
//! its group distribution map, and the projector that folds bus records into
//! a keyed store.
//!
//! Everything here is verified; the surrounding I/O (WebSockets, the event
//! bus client, the HTTP lookup, the relational store) lives outside and talks
//! to this crate through plain values.

pub mod comment;
pub mod context;
pub mod hotstorage;
pub mod scan;
pub mod stomp;
pub mod text;
pub mod varint;
