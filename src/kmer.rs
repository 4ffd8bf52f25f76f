//! A k-mer: its 2-bit packed sequence and the data attached to it.
use vstd::prelude::*;

use crate::encoding::{bits2seq, bits_to_seq, seq2bits, seq_to_bits};

verus! {

/// A k-mer with its data.
#[derive(Debug, Clone, PartialEq, Eq)]
pub struct Kmer {
    pub(crate) seq2bit: Vec<bool>,
    pub(crate) data: Vec<u8>,
}

impl Kmer {
    /// Bits of the sequence, two per nucleotide.
    pub open(crate) spec fn bits(&self) -> Seq<bool> {
        self.seq2bit@
    }

    /// Data attached to the k-mer.
    pub open(crate) spec fn payload(&self) -> Seq<u8> {
        self.data@
    }

    /// A k-mer from its bits and data.
    pub fn new(seq2bit: Vec<bool>, data: Vec<u8>) -> (r: Kmer)
        ensures
            r.bits() == seq2bit@,
            r.payload() == data@,
    {
        Kmer { seq2bit, data }
    }

    /// A k-mer from a nucleotide sequence, encoded with `encoding`.
    pub fn from_ascii(seq: &[u8], data: Vec<u8>, encoding: u8) -> (r: Kmer)
        ensures
            r.bits() == seq_to_bits(encoding, seq@),
            r.payload() == data@,
    {
        Kmer { seq2bit: seq2bits(seq, encoding), data }
    }

    /// The nucleotide sequence of the k-mer, decoded with `encoding`.
    pub fn seq(&self, encoding: u8) -> (r: Vec<u8>)
        ensures
            r@ == bits_to_seq(encoding, self.bits()),
    {
        bits2seq(self.seq2bit.as_slice(), encoding)
    }

    /// Bits of the sequence.
    pub fn seq2bit(&self) -> (r: &Vec<bool>)
        ensures
            r@ == self.bits(),
    {
        &self.seq2bit
    }

    /// Data of the k-mer.
    pub fn data(&self) -> (r: &Vec<u8>)
        ensures
            r@ == self.payload(),
    {
        &self.data
    }

    /// Replace the bits of the sequence.
    pub fn set_seq2bit(&mut self, seq2bit: Vec<bool>)
        ensures
            final(self).bits() == seq2bit@,
            final(self).payload() == old(self).payload(),
    {
        self.seq2bit = seq2bit;
    }

    /// Replace the data.
    pub fn set_data(&mut self, data: Vec<u8>)
        ensures
            final(self).bits() == old(self).bits(),
            final(self).payload() == data@,
    {
        self.data = data;
    }

    /// Number of nucleotides.
    pub fn len(&self) -> (r: usize)
        ensures
            r == self.bits().len() / 2,
    {
        self.seq2bit.len() / 2
    }

    /// Whether the sequence is empty.
    pub fn is_empty(&self) -> (r: bool)
        ensures
            r == (self.bits().len() / 2 == 0),
    {
        self.seq2bit.len() / 2 == 0
    }
}

} // verus!
