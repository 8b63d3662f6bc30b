//! Connectivity resolution for gate-level schematics and tri-state signal
//! evaluation.
//!
//! A schematic is a list of components placed on an integer grid and a list
//! of wire segments between grid points. The resolver works out which
//! components are wired to which and writes the result as a flat netlist.
//! The evaluation core combines equal-width tri-state signal cells under a
//! logic operator.

pub mod types;
pub mod common;
pub mod text;
pub mod error;
pub mod layout;
pub mod bitref;
pub mod wiring;
pub mod resolve;
pub mod reach;
pub mod netlist;
pub mod document;
pub mod circ_parser;
