//! Driving an Epson TM-T20II receipt printer: what goes on the paper, and who may
//! put it there.
//!
//! The library composes the bytes of print jobs and decides everything around
//! them. Whoever holds the USB claim, the files and the sockets hands it plain values
//! and carries out what it decides. It reads nothing but the clock, and that only to
//! seed a generator that was given no seed.
//!
//! - [`printer`], [`escpos`], [`device`]: the driver. A `Printer` is a job in the
//!   making; its commands are stated byte by byte, and so is what the device's
//!   endpoints and status bytes mean.
//! - [`text`], [`wrap`]: text as sequences of characters, and word-wrapping.
//! - [`paper`]: what the printer makes of a job.
//! - [`raster`]: one-bit images, and how tones become dots.
//! - [`rng`], [`generative`], [`maze`], [`hilbert`]: generated pieces.
//! - [`jobs`], [`slips`]: what the command line and the endpoint put on paper.
//! - [`server`], [`gate`], [`refusal`]: who may print, and what they are told.
//! - [`linear`], [`webhook`]: printing an issue when a comment asks for it.
//! - [`spoken`]: printing a spoken note that asks for it.

pub mod device;
pub mod escpos;
pub mod gate;
pub mod generative;
pub mod hilbert;
pub mod jobs;
pub mod linear;
pub mod maze;
pub mod paper;
pub mod printer;
pub mod raster;
pub mod refusal;
pub mod rng;
pub mod server;
pub mod slips;
pub mod spoken;
pub mod text;
pub mod webhook;
pub mod wrap;
