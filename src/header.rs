//! The file header.
use vstd::prelude::*;

use crate::codec::{be_bytes, be_value};
use crate::encoding::{is_valid_encoding, valid_encoding};
use crate::error::{Error, Kff, Result};
use crate::read::ByteReader;
use crate::emit::{write_bool, write_bytes, write_u32, write_u8};

verus! {

/// The magic number "KFF" that opens and closes a file.
pub open spec fn magic() -> Seq<u8> {
    seq![75u8, 70u8, 70u8]
}

/// A supported version: major at most 1, and minor 0 when major is 1.
pub open spec fn version_ok(major: u8, minor: u8) -> bool {
    major <= 1 && (major == 1 ==> minor == 0)
}

/// The byte of a boolean flag.
pub open spec fn flag_byte(b: bool) -> u8 {
    if b {
        1
    } else {
        0
    }
}

/// Header round trip: the bytes that `write` gives for a valid header start
/// with the magic number, hold a supported version and a valid encoding, and
/// every reading of them gives the header's fields back.
pub proof fn lemma_header_round_trip(h: Header, d: Seq<u8>)
    requires
        h.valid(),
        h.spec_free_block().len() <= u32::MAX,
        h.to_bytes().len() <= d.len(),
        d.subrange(0, h.to_bytes().len() as int) == h.to_bytes(),
    ensures
        d.subrange(0, 3) == magic(),
        version_ok(d[3], d[4]),
        is_valid_encoding(d[5]),
        h.to_bytes().len() == 12 + be_value(d.subrange(8, 12)),
        forall|h2: Header|
            #[trigger] Header::read_from(h2, d, 0) ==> h2.spec_major() == h.spec_major()
                && h2.spec_minor() == h.spec_minor() && h2.spec_encoding() == h.spec_encoding()
                && h2.spec_uniq() == h.spec_uniq() && h2.spec_canonical() == h.spec_canonical()
                && h2.spec_free_block() == h.spec_free_block(),
{
    let b = h.to_bytes();
    let len = h.spec_free_block().len();
    crate::codec::lemma_pow256_widths();
    crate::codec::lemma_be_bytes_len(len as nat, 4);
    crate::codec::lemma_be_round_trip(len as nat, 4);
    assert(d.subrange(0, 3) =~= magic()) by {
        assert(d.subrange(0, b.len() as int)[0] == b[0]);
        assert(d.subrange(0, b.len() as int)[1] == b[1]);
        assert(d.subrange(0, b.len() as int)[2] == b[2]);
    }
    assert forall|i: int| 0 <= i < b.len() implies d[i] == b[i] by {
        assert(d.subrange(0, b.len() as int)[i] == b[i]);
    }
    assert(d.subrange(8, 12) =~= be_bytes(len as nat, 4));
    assert(d.subrange(12, 12 + len as int) =~= h.spec_free_block());
}

/// Header of a file.
#[derive(Debug, Clone, PartialEq, Eq)]
pub struct Header {
    pub(crate) major_version: u8,
    pub(crate) minor_version: u8,
    pub(crate) encoding: u8,
    pub(crate) uniq_kmer: bool,
    pub(crate) canonical_kmer: bool,
    pub(crate) free_block: Vec<u8>,
}

impl Header {
    pub open(crate) spec fn spec_major(&self) -> u8 {
        self.major_version
    }

    pub open(crate) spec fn spec_minor(&self) -> u8 {
        self.minor_version
    }

    pub open(crate) spec fn spec_encoding(&self) -> u8 {
        self.encoding
    }

    pub open(crate) spec fn spec_uniq(&self) -> bool {
        self.uniq_kmer
    }

    pub open(crate) spec fn spec_canonical(&self) -> bool {
        self.canonical_kmer
    }

    pub open(crate) spec fn spec_free_block(&self) -> Seq<u8> {
        self.free_block@
    }

    /// The version is supported and the encoding valid.
    pub open(crate) spec fn valid(&self) -> bool {
        version_ok(self.major_version, self.minor_version) && is_valid_encoding(self.encoding)
    }

    /// The bytes of the header in a file.
    pub open(crate) spec fn to_bytes(&self) -> Seq<u8> {
        magic() + seq![
            self.major_version,
            self.minor_version,
            self.encoding,
            flag_byte(self.uniq_kmer),
            flag_byte(self.canonical_kmer),
        ] + be_bytes(self.free_block@.len() as nat, 4) + self.free_block@
    }

    /// A header with these fields, when the version is supported and the
    /// encoding valid.
    pub fn new(
        major_version: u8,
        minor_version: u8,
        encoding: u8,
        uniq_kmer: bool,
        canonical_kmer: bool,
        free_block: Vec<u8>,
    ) -> (r: Result<Header>)
        ensures
            match r {
                Ok(h) => {
                    &&& version_ok(major_version, minor_version)
                    &&& is_valid_encoding(encoding)
                    &&& h.spec_major() == major_version
                    &&& h.spec_minor() == minor_version
                    &&& h.spec_encoding() == encoding
                    &&& h.spec_uniq() == uniq_kmer
                    &&& h.spec_canonical() == canonical_kmer
                    &&& h.spec_free_block() == free_block@
                },
                Err(e) => Header::check_error(major_version, minor_version, encoding, e),
            },
    {
        Header::check_version(major_version, minor_version)?;
        valid_encoding(encoding)?;
        Ok(Header { major_version, minor_version, encoding, uniq_kmer, canonical_kmer, free_block })
    }

    /// `e` is the error that the check of these version numbers and encoding gives.
    pub open(crate) spec fn check_error(major: u8, minor: u8, encoding: u8, e: Error) -> bool {
        if major > 1 {
            e == Error::Kff(Kff::HighMajorVersionNumber(major))
        } else if major == 1 && minor > 0 {
            e == Error::Kff(Kff::HighMinorVersionNumber(minor))
        } else {
            !is_valid_encoding(encoding) && e == Error::Kff(Kff::BadEncoding(encoding))
        }
    }

    fn check_version(major: u8, minor: u8) -> (r: Result<()>)
        ensures
            match r {
                Ok(_) => version_ok(major, minor),
                Err(e) => !version_ok(major, minor) && if major > 1 {
                    e == Error::Kff(Kff::HighMajorVersionNumber(major))
                } else {
                    e == Error::Kff(Kff::HighMinorVersionNumber(minor))
                },
            },
    {
        if major > 1 {
            return Err(Error::Kff(Kff::HighMajorVersionNumber(major)));
        }
        if major == 1 && minor > 0 {
            return Err(Error::Kff(Kff::HighMinorVersionNumber(minor)));
        }
        Ok(())
    }

    /// `h` holds the fields of the header that starts at `p` in `d`.
    pub open(crate) spec fn read_from(h: Header, d: Seq<u8>, p: int) -> bool {
        &&& d.subrange(p, p + 3) == magic()
        &&& h.valid()
        &&& h.spec_major() == d[p + 3]
        &&& h.spec_minor() == d[p + 4]
        &&& h.spec_encoding() == d[p + 5]
        &&& h.spec_uniq() == (d[p + 6] != 0)
        &&& h.spec_canonical() == (d[p + 7] != 0)
        &&& h.spec_free_block() == d.subrange(p + 12, p + 12 + be_value(d.subrange(p + 8, p + 12)))
    }

    /// `e` is the error that reading a header at `p` in `d` gives: the first of
    /// a short magic number, a wrong magic number, a short header, and an
    /// unsupported version or invalid encoding.
    pub open(crate) spec fn read_error(d: Seq<u8>, p: int, e: Error) -> bool {
        let len = be_value(d.subrange(p + 8, p + 12)) as int;
        if p + 3 > d.len() {
            e is UnexpectedEof
        } else if d.subrange(p, p + 3) != magic() {
            e matches Error::Kff(Kff::MissingMagic(s)) && s@ == "start"@
        } else if p + 12 + len > d.len() {
            e is UnexpectedEof
        } else {
            (!version_ok(d[p + 3], d[p + 4]) || !is_valid_encoding(d[p + 5]))
                && Header::check_error(d[p + 3], d[p + 4], d[p + 5], e)
        }
    }

    /// Read a header.
    pub fn read(input: &mut ByteReader) -> (r: Result<Header>)
        ensures
            final(input).bytes() == old(input).bytes(),
            ({
                let d = old(input).bytes();
                let p = old(input).pos();
                let len = be_value(d.subrange(p + 8, p + 12)) as int;
                match r {
                    Ok(h) => {
                        &&& old(input).took(final(input), 12 + len)
                        &&& Header::read_from(h, d, p)
                        &&& d.subrange(p, p + 3) == magic()
                        &&& h.valid()
                        &&& h.spec_major() == d[p + 3]
                        &&& h.spec_minor() == d[p + 4]
                        &&& h.spec_encoding() == d[p + 5]
                        &&& h.spec_uniq() == (d[p + 6] != 0)
                        &&& h.spec_canonical() == (d[p + 7] != 0)
                        &&& h.spec_free_block() == d.subrange(p + 12, p + 12 + len)
                    },
                    Err(e) => Header::read_error(d, p, e),
                }
            }),
    {
        let magic_number = input.read_n_bytes_dyn(3)?;
        if !(magic_number[0] == 75u8 && magic_number[1] == 70u8 && magic_number[2] == 70u8) {
            proof {
                assert(magic_number@ != magic()) by {
                    if magic_number@ == magic() {
                        assert(magic_number@[0] == 75u8);
                    }
                }
            }
            return Err(Error::Kff(Kff::MissingMagic("start".to_owned())));
        }
        assert(magic_number@ =~= magic());
        let major_version = input.read_u8()?;
        let minor_version = input.read_u8()?;
        let encoding = input.read_u8()?;
        let uniq_kmer = input.read_bool()?;
        let canonical_kmer = input.read_bool()?;
        let free_block_size = input.read_u32()?;
        if free_block_size as u64 > usize::MAX as u64 {
            return Err(Error::UnexpectedEof);
        }
        let free_block = input.read_n_bytes_dyn(free_block_size as usize)?;
        Header::check_version(major_version, minor_version)?;
        valid_encoding(encoding)?;
        Ok(Header { major_version, minor_version, encoding, uniq_kmer, canonical_kmer, free_block })
    }

    /// Write the header.
    pub fn write(&self, out: &mut Vec<u8>)
        requires
            self.spec_free_block().len() <= u32::MAX,
        ensures
            final(out)@ == old(out)@ + self.to_bytes(),
    {
        write_bytes(out, &[75u8, 70u8, 70u8]);
        write_u8(out, self.major_version);
        write_u8(out, self.minor_version);
        write_u8(out, self.encoding);
        write_bool(out, self.uniq_kmer);
        write_bool(out, self.canonical_kmer);
        let len = self.free_block.len();
        write_u32(out, len as u32);
        write_bytes(out, self.free_block.as_slice());
        proof {
            assert(final(out)@ =~= old(out)@ + self.to_bytes());
        }
    }

    /// Set the major version number, if supported with the current minor one.
    pub fn set_major_version(&mut self, val: u8) -> (r: Result<()>)
        ensures
            match r {
                Ok(_) => version_ok(val, old(self).spec_minor()) && (final(self).spec_major() == val && final(self).spec_minor() == old(self).spec_minor() && final(self).spec_encoding() == old(self).spec_encoding() && final(self).spec_uniq() == old(self).spec_uniq() && final(self).spec_canonical() == old(self).spec_canonical() && final(self).spec_free_block() == old(self).spec_free_block()),
                Err(e) => !version_ok(val, old(self).spec_minor()) && *final(self) == *old(self),
            },
    {
        Header::check_version(val, self.minor_version)?;
        self.major_version = val;
        Ok(())
    }

    /// Set the minor version number, if supported with the current major one.
    pub fn set_minor_version(&mut self, val: u8) -> (r: Result<()>)
        ensures
            match r {
                Ok(_) => version_ok(old(self).spec_major(), val) && (final(self).spec_major() == old(self).spec_major() && final(self).spec_minor() == val && final(self).spec_encoding() == old(self).spec_encoding() && final(self).spec_uniq() == old(self).spec_uniq() && final(self).spec_canonical() == old(self).spec_canonical() && final(self).spec_free_block() == old(self).spec_free_block()),
                Err(e) => !version_ok(old(self).spec_major(), val) && *final(self) == *old(self),
            },
    {
        Header::check_version(self.major_version, val)?;
        self.minor_version = val;
        Ok(())
    }

    /// Set the encoding, if valid.
    pub fn set_encoding(&mut self, val: u8) -> (r: Result<()>)
        ensures
            match r {
                Ok(_) => is_valid_encoding(val) && (final(self).spec_major() == old(self).spec_major() && final(self).spec_minor() == old(self).spec_minor() && final(self).spec_encoding() == val && final(self).spec_uniq() == old(self).spec_uniq() && final(self).spec_canonical() == old(self).spec_canonical() && final(self).spec_free_block() == old(self).spec_free_block()),
                Err(e) => !is_valid_encoding(val) && e == Error::Kff(Kff::BadEncoding(val))
                    && *final(self) == *old(self),
            },
    {
        valid_encoding(val)?;
        self.encoding = val;
        Ok(())
    }

    /// Major version number.
    pub fn major_version(&self) -> (r: u8)
        ensures
            r == self.spec_major(),
    {
        self.major_version
    }

    /// Minor version number.
    pub fn minor_version(&self) -> (r: u8)
        ensures
            r == self.spec_minor(),
    {
        self.minor_version
    }

    /// Encoding byte.
    pub fn encoding(&self) -> (r: u8)
        ensures
            r == self.spec_encoding(),
    {
        self.encoding
    }

    /// Whether the file holds each k-mer once.
    pub fn uniq_kmer(&self) -> (r: bool)
        ensures
            r == self.spec_uniq(),
    {
        self.uniq_kmer
    }

    /// Whether the file holds canonical k-mers only.
    pub fn canonical_kmer(&self) -> (r: bool)
        ensures
            r == self.spec_canonical(),
    {
        self.canonical_kmer
    }

    /// The free block.
    pub fn free_block(&self) -> (r: &Vec<u8>)
        ensures
            r@ == self.spec_free_block(),
    {
        &self.free_block
    }

    /// Set the flag of unique k-mers.
    pub fn set_uniq_kmer(&mut self, val: bool)
        ensures
            (final(self).spec_major() == old(self).spec_major() && final(self).spec_minor() == old(self).spec_minor() && final(self).spec_encoding() == old(self).spec_encoding() && final(self).spec_uniq() == val && final(self).spec_canonical() == old(self).spec_canonical() && final(self).spec_free_block() == old(self).spec_free_block()),
    {
        self.uniq_kmer = val;
    }

    /// Set the flag of canonical k-mers.
    pub fn set_canonical_kmer(&mut self, val: bool)
        ensures
            (final(self).spec_major() == old(self).spec_major() && final(self).spec_minor() == old(self).spec_minor() && final(self).spec_encoding() == old(self).spec_encoding() && final(self).spec_uniq() == old(self).spec_uniq() && final(self).spec_canonical() == val && final(self).spec_free_block() == old(self).spec_free_block()),
    {
        self.canonical_kmer = val;
    }

    /// Set the free block.
    pub fn set_free_block(&mut self, val: Vec<u8>)
        ensures
            (final(self).spec_major() == old(self).spec_major() && final(self).spec_minor() == old(self).spec_minor() && final(self).spec_encoding() == old(self).spec_encoding() && final(self).spec_uniq() == old(self).spec_uniq() && final(self).spec_canonical() == old(self).spec_canonical() && final(self).spec_free_block() == val@),
    {
        self.free_block = val;
    }
}

} // verus!
