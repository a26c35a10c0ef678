//! Verified core of a tool that reduces AiM SmartyCam MP4 recordings while keeping their
//! `aimd` telemetry track.

pub mod args;
pub mod atoms;
pub mod bytes;
pub mod carried;
pub mod device;
pub mod encode;
pub mod error;
pub mod filter;
pub mod job;
pub mod kinds;
pub mod message;
pub mod moved;
pub mod order;
pub mod owed;
pub mod patch;
pub mod patched;
pub mod paths;
pub mod pump;
pub mod rational;
pub mod reread;
pub mod retention;
pub mod splice;
pub mod tables;
pub mod text;
pub mod track;
