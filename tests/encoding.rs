use kff::encoding::{
    bits2seq, encoding2nuc, internal2nuc, nuc2encoding, nuc2internal, rev_encoding, seq2bits,
    valid_encoding, Encoding,
};
use kff::error::{Error, Kff};
use kff::kmer::Kmer;

fn bits(v: &[u8]) -> Vec<bool> {
    v.iter().map(|b| *b == 1).collect()
}

#[test]
fn internal_encoding() {
    assert_eq!(nuc2internal(b'A'), 0);
    assert_eq!(nuc2internal(b'C'), 1);
    assert_eq!(nuc2internal(b'T'), 2);
    assert_eq!(nuc2internal(b'G'), 3);
}

#[test]
fn internal_decoding() {
    assert_eq!(internal2nuc(0), b'A');
    assert_eq!(internal2nuc(1), b'C');
    assert_eq!(internal2nuc(2), b'T');
    assert_eq!(internal2nuc(3), b'G');
}

// The encoding byte holds the codes of A, C, G and T, from the most
// significant bits.
#[test]
fn encoding() {
    let encoding = 0b11100100;
    assert_eq!(nuc2encoding(b'A', encoding), 0b11000000);
    assert_eq!(nuc2encoding(b'C', encoding), 0b10000000);
    assert_eq!(nuc2encoding(b'G', encoding), 0b01000000);
    assert_eq!(nuc2encoding(b'T', encoding), 0b00000000);
}

#[test]
fn decoding() {
    let mut rencoding = rev_encoding(0b00011011);
    assert_eq!(encoding2nuc(0b00000000, rencoding), b'A');
    assert_eq!(encoding2nuc(0b01000000, rencoding), b'C');
    assert_eq!(encoding2nuc(0b10000000, rencoding), b'G');
    assert_eq!(encoding2nuc(0b11000000, rencoding), b'T');
    rencoding = rev_encoding(0b11100100);
    assert_eq!(encoding2nuc(0b11000000, rencoding), b'A');
    assert_eq!(encoding2nuc(0b10000000, rencoding), b'C');
    assert_eq!(encoding2nuc(0b01000000, rencoding), b'G');
    assert_eq!(encoding2nuc(0b00000000, rencoding), b'T');
    rencoding = rev_encoding(0b01110010);
    assert_eq!(encoding2nuc(0b01000000, rencoding), b'A');
    assert_eq!(encoding2nuc(0b11000000, rencoding), b'C');
    assert_eq!(encoding2nuc(0b00000000, rencoding), b'G');
    assert_eq!(encoding2nuc(0b10000000, rencoding), b'T');
}

#[test]
fn rev_encoding_() {
    assert_eq!(rev_encoding(0b00011011), 0b00011011);
    assert_eq!(rev_encoding(0b11100100), 0b11100100);
    assert_eq!(rev_encoding(0b01110010), 0b10001101);
}

#[test]
fn nuc2bits_() {
    let mut encoding = 0b00011011;
    assert_eq!(seq2bits(b"A", encoding), bits(&[0, 0]));
    assert_eq!(seq2bits(b"C", encoding), bits(&[0, 1]));
    assert_eq!(seq2bits(b"G", encoding), bits(&[1, 0]));
    assert_eq!(seq2bits(b"T", encoding), bits(&[1, 1]));
    encoding = 0b01110010;
    assert_eq!(seq2bits(b"A", encoding), bits(&[0, 1]));
    assert_eq!(seq2bits(b"C", encoding), bits(&[1, 1]));
    assert_eq!(seq2bits(b"G", encoding), bits(&[0, 0]));
    assert_eq!(seq2bits(b"T", encoding), bits(&[1, 0]));
}

#[test]
fn seq2bits_() {
    let encoding = 0b00011011;
    assert_eq!(seq2bits(b"AC", encoding), bits(&[0, 0, 0, 1]));
    assert_eq!(seq2bits(b"ACG", encoding), bits(&[0, 0, 0, 1, 1, 0]));
    assert_eq!(seq2bits(b"ACGTA", encoding), bits(&[0, 0, 0, 1, 1, 0, 1, 1, 0, 0]));
}

#[test]
fn bits2seq_() {
    let encoding = 0b00011011;
    assert_eq!(bits2seq(&seq2bits(b"AC", encoding), encoding), b"AC".to_vec());
    assert_eq!(bits2seq(&seq2bits(b"ACGT", encoding), encoding), b"ACGT".to_vec());
    assert_eq!(bits2seq(&seq2bits(b"ACGTG", encoding), encoding), b"ACGTG".to_vec());
}

#[test]
fn seq2bit() {
    let encoding = 0b00011011;
    let kmer = Kmer::from_ascii(b"ACTG", vec![1], encoding);
    assert_eq!(kmer.seq(encoding), b"ACTG");
}

#[test]
fn into_nuc() {
    for seq in [&b"CA"[..], b"CATG", b"CATGA"] {
        let bits = seq2bits(seq, 0b00011011);
        assert_eq!(bits2seq(&bits, 0b00011011), seq.to_vec());
    }
}

#[test]
fn kmer_create() {
    let mut kmer = Kmer::new(bits(&[0, 0, 0, 1, 1, 0, 1, 1]), vec![1]);
    assert_eq!(kmer.seq2bit(), &bits(&[0, 0, 0, 1, 1, 0, 1, 1]));
    kmer.set_seq2bit(bits(&[0, 0, 0, 1, 1, 0]));
    assert_eq!(kmer.seq2bit(), &bits(&[0, 0, 0, 1, 1, 0]));
    assert_eq!(kmer.len(), 3);
    assert!(!kmer.is_empty());
    kmer.set_data(vec![4, 5]);
    assert_eq!(kmer.data(), &vec![4, 5]);
}

#[test]
fn round_trip_under_every_valid_encoding() {
    let seq = b"ACGTTGCAAGCTTACG";
    let mut valid = 0;
    for e in 0..=255u8 {
        if Encoding::new(e).is_ok() {
            valid += 1;
            assert_eq!(bits2seq(&seq2bits(seq, e), e), seq.to_vec());
        }
    }
    assert_eq!(valid, 24);
}

#[test]
fn bad_encoding_is_rejected() {
    assert!(matches!(
        valid_encoding(0b00101110),
        Err(Error::Kff(Kff::BadEncoding(0b00101110)))
    ));
    assert!(matches!(Encoding::new(0b11111111), Err(Error::Kff(Kff::BadEncoding(255)))));
    assert_eq!(Encoding::new(0b00011011).unwrap().value(), 0b00011011);
}

#[test]
fn from_nuc() {
    assert_eq!(bits(&[0, 1, 0, 0]), seq2bits(b"CA", 0b00011011));
    assert_eq!(bits(&[0, 1, 0, 0]), seq2bits(b"AC", 0b01001011));
}

#[test]
fn from_bits() {
    assert_eq!(bits(&[0, 1, 0, 0]), kff::codec::unpack_bits(&[0b01000000], 4));
    assert_eq!(bits(&[0, 1, 0, 0]), kff::codec::unpack_bits(&[0b01001111], 4));
}
