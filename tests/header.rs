use kff::error::{Error, Kff};
use kff::header::Header;
use kff::read::ByteReader;

// The encoding byte 0b00101101 gives A, C, G and T the codes 00, 10, 11, 01.
const VALID: &[u8] = &[
    b'K', b'F', b'F', 1, 0, 0b00101101, 1, 0, 0, 0, 0, 4, b't', b'e', b's', b't',
];

const BAD_MAGIC_NUMBER: &[u8] = b"KKF";

#[test]
fn new() {
    assert!(Header::new(1, 0, 0b00101101, true, false, b"test".to_vec()).is_ok());
    assert!(Header::new(2, 0, 0b00101101, true, false, b"test".to_vec()).is_err());
    assert!(Header::new(1, 1, 0b00101101, true, false, b"test".to_vec()).is_err());
    assert!(Header::new(1, 0, 0b11111111, true, false, b"test".to_vec()).is_err());
    // C and T share the code 10.
    assert!(Header::new(1, 0, 0b00101110, true, false, b"test".to_vec()).is_err());
}

#[test]
fn header_read() {
    let mut reader = ByteReader::new(VALID.to_vec());
    assert!(Header::read(&mut reader).is_ok());
    let mut reader = ByteReader::new(BAD_MAGIC_NUMBER.to_vec());
    assert!(Header::read(&mut reader).is_err());
}

#[test]
fn header_write() {
    let header = Header::new(1, 0, 0b00101101, true, false, b"test".to_vec()).unwrap();
    let mut writer = Vec::new();
    header.write(&mut writer);
    assert_eq!(VALID, writer);
}

#[test]
fn setter() {
    let mut reader = ByteReader::new(VALID.to_vec());
    let mut header = Header::read(&mut reader).unwrap();
    assert!(header.set_major_version(0).is_ok());
    assert!(header.set_major_version(1).is_ok());
    assert!(header.set_major_version(2).is_err());
    assert!(header.set_major_version(1).is_ok());
    assert!(header.set_minor_version(0).is_ok());
    assert!(header.set_minor_version(1).is_err());
    assert!(header.set_minor_version(2).is_err());
    assert!(header.set_minor_version(0).is_ok());
    assert!(header.set_encoding(0b00101101).is_ok());
    assert!(header.set_encoding(1).is_err());
    assert!(header.set_encoding(2).is_err());
}

#[test]
fn header_errors() {
    assert!(matches!(
        Header::new(2, 0, 0b00011011, false, false, vec![]),
        Err(Error::Kff(Kff::HighMajorVersionNumber(2)))
    ));
    assert!(matches!(
        Header::new(1, 3, 0b00011011, false, false, vec![]),
        Err(Error::Kff(Kff::HighMinorVersionNumber(3)))
    ));
    // Version 0 accepts any minor number.
    assert!(Header::new(0, 3, 0b00011011, false, false, vec![]).is_ok());
    assert!(matches!(
        Header::read(&mut ByteReader::new(b"KKF".to_vec())),
        Err(Error::Kff(Kff::MissingMagic(_)))
    ));
    assert!(matches!(
        Header::read(&mut ByteReader::new(b"KFF\x01".to_vec())),
        Err(Error::UnexpectedEof)
    ));
}

#[test]
fn header_fields() {
    let mut header = Header::new(1, 0, 0b00011011, true, false, b"x".to_vec()).unwrap();
    assert_eq!(header.major_version(), 1);
    assert_eq!(header.minor_version(), 0);
    assert_eq!(header.encoding(), 0b00011011);
    assert!(header.uniq_kmer());
    assert!(!header.canonical_kmer());
    header.set_canonical_kmer(true);
    header.set_uniq_kmer(false);
    header.set_free_block(b"abc".to_vec());
    assert!(header.canonical_kmer());
    assert!(!header.uniq_kmer());
    assert_eq!(header.free_block(), &b"abc".to_vec());
}
