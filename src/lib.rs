//! Reader and writer for the Kmer File Format (KFF): a binary container of
//! k-mers packed two bits per nucleotide, grouped in blocks that share
//! overlapping nucleotides, with per-k-mer data.

pub mod block;
pub mod codec;
pub mod emit;
pub mod encoding;
pub mod error;
pub mod global_index;
pub mod header;
pub mod index;
pub mod kff;
pub mod kmer;
pub mod minimizer;
pub mod raw;
pub mod read;
pub mod utils;
pub mod values;
