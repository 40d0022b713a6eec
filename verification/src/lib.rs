//! Alignment synthesis engine: turns genomic fragment records
//! (chromosome, start, end, barcode) into synthetic alignment records
//! of the tab-delimited alignment text format, against a reference
//! dictionary built from a chromosome sizes file.

pub mod dict;
pub mod fragment;
pub mod pipeline;
pub mod synth;
pub mod text;
