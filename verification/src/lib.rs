//! A small DNS filtering forwarder: the rules, wire format and decisions.
//!
//! Everything here computes on values. Sockets, files, signals and the clock
//! belong to the program around the library.
pub mod blocklist;
pub mod cache;
pub mod calendar;
pub mod cli;
pub mod config;
pub mod dns;
pub mod fetch;
pub mod filtering;
pub mod forwarding;
pub mod journald;
pub mod number;
pub mod pattern;
pub mod reload;
pub mod report;
pub mod resolve;
pub mod stats;
pub mod text;
pub mod upstream;
pub mod wire;
