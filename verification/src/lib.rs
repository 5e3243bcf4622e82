//! Bit-stream deframer for nRF24L01+ packets, fixed-length and Enhanced
//! ShockBurst, with every function verified against a model of the wire
//! format.
//!
//! The library takes sliced symbols and hands out frames:
//!
//! - `config`: the wire layout of a channel;
//! - `frame`: frames, their text and their encoding for the air;
//! - `decoder`: the state of the deframer and what one bit does to it;
//! - `deframer`: a deframer bound to its configuration and its queue;
//! - `stats`: counts of the frames seen, by address;
//! - `options`: checks on what the command line gives.
//!
//! What the deframer does is said over a model and proved of it:
//!
//! - `model`: the states, the step that one bit makes, and the run of a
//!   stream of bits, with its rewinds;
//! - `invariants`: what every step and every run keeps;
//! - `trace`: the states that the bits of one frame lead through;
//! - `provenance`: every frame handed out was received, with a CRC that holds;
//! - `scan`: the first frame of a stream is found behind whatever precedes it;
//! - `laws`: round trips, filters, bounds and noise;
//! - `noise`: what a broken frame hands out under every layout.
//!
//! Three crates do work that is taken on trust: `bit_vec` holds the bits
//! (`bitvec`), `crc` computes the checksum (`checksum`) and `hex` writes the
//! bytes of a frame as text (`frame`). `bits` packs bits into bytes and back,
//! and `text` says how numbers and bytes are written.

pub mod bits;
pub mod bitvec;
pub mod checksum;
pub mod text;
pub mod config;
pub mod frame;
pub mod model;
pub mod invariants;
pub mod decoder;
pub mod deframer;
pub mod trace;
pub mod provenance;
pub mod scan;
pub mod laws;
pub mod noise;
pub mod options;
pub mod stats;
