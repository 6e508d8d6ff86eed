//! Decoder for the textual status stream of a GPS-disciplined oscillator.
//!
//! The device writes one status line after the other to a serial link. This
//! crate turns the bytes that arrive into typed telemetry and keeps the most
//! recent readings:
//!
//! - [`framer`] says which lines and messages a stream of bytes holds, and
//!   has a framer that takes the stream in chunks of any size;
//! - [`cartain_codec`] frames one line at a time out of the buffer of a
//!   framed transport;
//! - [`message`] classifies a line as one of six kinds of message;
//! - [`decimal`] and [`number`] read the numbers in a line;
//! - [`app`] and [`series`] hold the readings, a bounded series per metric;
//! - [`gps`] has the items of the telemetry channel and what the acquisition
//!   side reports on it;
//! - [`args`] holds the command line;
//! - [`text`] and [`buffer`] are the byte-level groundwork.
//!
//! Opening the device, reading the clock, the channel between the two
//! sides, and drawing to the terminal are left to the program that uses the
//! crate.

pub mod app;
pub mod args;
pub mod buffer;
pub mod cartain_codec;
pub mod decimal;
pub mod framer;
pub mod gps;
pub mod message;
pub mod number;
pub mod series;
pub mod text;
