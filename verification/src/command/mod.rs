//! The decisions of the command-line tool.
//!
//! Reading arguments, files, sockets and the clock is left to the program; what
//! it reads is handed here as plain values.

pub mod encoding;
pub mod inspection;
pub mod pairing;
pub mod recovery;
pub mod report;
pub mod sharing;
pub mod user;
