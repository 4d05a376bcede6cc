//! A verified protocol core for a DICOM store service class provider:
//! it reassembles fragmented protocol data units, decodes and encodes
//! command-set messages in the fixed Implicit VR Little Endian
//! sub-encoding, drives the per-association state machine, and
//! synthesizes correlated C-STORE acknowledgements.

pub mod accumulator;
pub mod codec;
pub mod collab;
pub mod config;
pub mod pdu;
pub mod session;
