use kff::block::{read_nb_kmer, write_nb_kmer};
use kff::error::Error;
use kff::read::ByteReader;
use kff::utils::{bits2store_k, bytes2store_k, ceil_to_8};
use kff::emit;

const LOREM: &[u8] = b"Lorem ipsum dolor\0sit amet, consectetur adipiscing elit.";

#[test]
fn read_n_bytes() {
    let mut reader = ByteReader::new(LOREM.to_vec());
    let values = reader.read_n_bytes::<11>().unwrap();
    assert_eq!(&values, b"Lorem ipsum");
    let values = reader.read_n_bytes::<11>().unwrap();
    assert_eq!(&values, b" dolor\0sit ");
    let values = reader.read_n_bytes::<400>();
    assert!(values.is_err());
}

#[test]
fn read_n_bytes_dyn() {
    let mut reader = ByteReader::new(LOREM.to_vec());
    let values = reader.read_n_bytes_dyn(11).unwrap();
    assert_eq!(&values, b"Lorem ipsum");
    let values = reader.read_n_bytes_dyn(11).unwrap();
    assert_eq!(&values, b" dolor\0sit ");
    let values = reader.read_n_bytes_dyn(400);
    assert!(values.is_err());
}

#[test]
fn read_ascii() {
    let mut reader = ByteReader::new(LOREM.to_vec());
    let values = reader.read_ascii();
    assert_eq!(&values, b"Lorem ipsum dolor");
    reader.seek(values.len() + 1);
    let values = reader.read_ascii();
    assert_eq!(&values, b"sit amet, consectetur adipiscing elit.");
    reader.seek(LOREM.len());
    let values = reader.read_ascii();
    assert_eq!(&values, b"");
}

#[test]
fn read_2bits() {
    let mut reader = ByteReader::new(vec![0b11101110, 0b00010001]);
    let kmer = reader.read_2bits(5).unwrap();
    assert_eq!(
        kmer,
        vec![true, true, true, false, true, true, true, false, false, false]
    );
}

#[test]
fn read_bool() {
    let mut reader = ByteReader::new(LOREM.to_vec());
    assert!(reader.read_bool().unwrap());
    let _ = reader.read_n_bytes::<16>().unwrap();
    assert!(!reader.read_bool().unwrap());
}

#[test]
fn read_u8() {
    let mut reader = ByteReader::new(LOREM.to_vec());
    assert_eq!(reader.read_u8().unwrap(), b'L');
    assert_eq!(reader.read_u8().unwrap(), b'o');
}

#[test]
fn read_u16() {
    let mut reader = ByteReader::new(LOREM.to_vec());
    assert_eq!(reader.read_u16().unwrap(), 19567);
    assert_eq!(reader.read_u16().unwrap(), 29285);
}

#[test]
fn read_u32() {
    let mut reader = ByteReader::new(LOREM.to_vec());
    assert_eq!(reader.read_u32().unwrap(), 1282372197);
    assert_eq!(reader.read_u32().unwrap(), 1830840688);
}

#[test]
fn read_u64() {
    let mut reader = ByteReader::new(LOREM.to_vec());
    assert_eq!(reader.read_u64().unwrap(), 5507746649245510000);
    assert_eq!(reader.read_u64().unwrap(), 8319675872528264303);
}

#[test]
fn read_past_end_is_unexpected_eof() {
    let mut reader = ByteReader::new(vec![1, 2, 3]);
    assert!(matches!(reader.read_u32(), Err(Error::UnexpectedEof)));
    assert_eq!(reader.position(), 0);
    assert_eq!(reader.read_u16().unwrap(), 258);
}

#[test]
fn i64_round_trip() {
    let mut out = Vec::new();
    emit::write_i64(&mut out, -2);
    emit::write_i64(&mut out, i64::MIN);
    emit::write_i64(&mut out, 77);
    assert_eq!(&out[..8], &[255, 255, 255, 255, 255, 255, 255, 254]);
    let mut reader = ByteReader::new(out);
    assert_eq!(reader.read_i64().unwrap(), -2);
    assert_eq!(reader.read_i64().unwrap(), i64::MIN);
    assert_eq!(reader.read_i64().unwrap(), 77);
}

#[test]
fn write_bytes() {
    let mut writer = Vec::new();
    emit::write_bytes(&mut writer, b"Lorem");
    assert_eq!(writer, b"Lorem");
}

#[test]
fn write_ascii() {
    let mut writer = Vec::new();
    emit::write_ascii(&mut writer, b"Lorem");
    assert_eq!(writer, &[b'L', b'o', b'r', b'e', b'm', 0]);
}

#[test]
fn write_bool() {
    let mut writer = Vec::new();
    emit::write_bool(&mut writer, true);
    emit::write_bool(&mut writer, false);
    assert_eq!(writer, &[1, 0]);
}

#[test]
fn write_u8() {
    let mut writer = Vec::new();
    emit::write_u8(&mut writer, 1);
    emit::write_u8(&mut writer, 128);
    emit::write_u8(&mut writer, 130);
    assert_eq!(writer, &[1, 128, 130]);
}

#[test]
fn write_u16() {
    let mut writer = Vec::new();
    emit::write_u16(&mut writer, 250);
    emit::write_u16(&mut writer, 500);
    assert_eq!(writer, &[0, 250, 1, 244]);
}

#[test]
fn write_u32() {
    let mut writer = Vec::new();
    emit::write_u32(&mut writer, 3511);
    emit::write_u32(&mut writer, 511110);
    assert_eq!(writer, &[0, 0, 13, 183, 0, 7, 204, 134]);
}

#[test]
fn write_u64() {
    let mut writer = Vec::new();
    emit::write_u64(&mut writer, 35191823831);
    emit::write_u64(&mut writer, 444799335191823831);
    assert_eq!(
        writer,
        &[0, 0, 0, 8, 49, 152, 157, 215, 6, 44, 62, 163, 130, 112, 69, 215]
    );
}

#[test]
fn write_helpers_append() {
    let mut out = vec![9];
    emit::write_bytes(&mut out, b"ab");
    emit::write_ascii(&mut out, b"c");
    emit::write_bool(&mut out, true);
    emit::write_u8(&mut out, 7);
    emit::write_u16(&mut out, 1);
    emit::write_u32(&mut out, 2);
    emit::write_u64(&mut out, 3);
    assert_eq!(
        out,
        vec![9, b'a', b'b', b'c', 0, 1, 7, 0, 1, 0, 0, 0, 2, 0, 0, 0, 0, 0, 0, 0, 3]
    );
}

#[test]
fn max_value_read() {
    let readable: &[u8] = &[1, 2, 3, 4, 5, 6, 7, 8];
    let value = read_nb_kmer(&mut ByteReader::new(readable.to_vec()), u8::MAX.into()).unwrap();
    assert_eq!(value, 1);
    let value = read_nb_kmer(&mut ByteReader::new(readable.to_vec()), u8::MAX as u64 + 1).unwrap();
    assert_eq!(value, 258);
    let value = read_nb_kmer(&mut ByteReader::new(readable.to_vec()), u16::MAX.into()).unwrap();
    assert_eq!(value, 258);
    let value = read_nb_kmer(&mut ByteReader::new(readable.to_vec()), u16::MAX as u64 + 1).unwrap();
    assert_eq!(value, 16909060);
    let value = read_nb_kmer(&mut ByteReader::new(readable.to_vec()), u32::MAX.into()).unwrap();
    assert_eq!(value, 16909060);
    let value = read_nb_kmer(&mut ByteReader::new(readable.to_vec()), u32::MAX as u64 + 1).unwrap();
    assert_eq!(value, 72623859790382856);
    let value = read_nb_kmer(&mut ByteReader::new(readable.to_vec()), u64::MAX).unwrap();
    assert_eq!(value, 72623859790382856);
}

#[test]
fn max_value_write() {
    let mut writable = Vec::new();
    write_nb_kmer(&mut writable, u8::MAX as u64, u8::MAX as u64);
    assert_eq!(writable, vec![255]);
    writable.clear();
    write_nb_kmer(&mut writable, (u8::MAX as u64) + 1, (u8::MAX as u64) + 1);
    assert_eq!(writable, vec![1, 0]);
    writable.clear();
    write_nb_kmer(&mut writable, u16::MAX as u64, u16::MAX as u64);
    assert_eq!(writable, vec![255, 255]);
    writable.clear();
    write_nb_kmer(&mut writable, (u16::MAX as u64) + 1, (u16::MAX as u64) + 1);
    assert_eq!(writable, vec![0, 1, 0, 0]);
    writable.clear();
    write_nb_kmer(&mut writable, u32::MAX as u64, u32::MAX as u64);
    assert_eq!(writable, vec![255, 255, 255, 255]);
    writable.clear();
    write_nb_kmer(&mut writable, (u32::MAX as u64) + 1, (u32::MAX as u64) + 1);
    assert_eq!(writable, vec![0, 0, 0, 1, 0, 0, 0, 0]);
    writable.clear();
    write_nb_kmer(&mut writable, u64::MAX as u64, u64::MAX as u64);
    assert_eq!(writable, vec![255, 255, 255, 255, 255, 255, 255, 255]);
    writable.clear();
}

#[test]
fn dynamic_width_round_trip() {
    for (max, value, width) in [
        (0u64, 0u64, 1usize),
        (1, 1, 1),
        (255, 200, 1),
        (256, 256, 2),
        (65535, 4096, 2),
        (65536, 65536, 4),
        (u32::MAX as u64, 123456789, 4),
        (u32::MAX as u64 + 1, u32::MAX as u64 + 1, 8),
        (u64::MAX, u64::MAX - 3, 8),
    ] {
        let mut out = Vec::new();
        write_nb_kmer(&mut out, max, value);
        assert_eq!(out.len(), width);
        let back = read_nb_kmer(&mut ByteReader::new(out), max).unwrap();
        assert_eq!(back, value);
    }
}

#[test]
fn ceil_to_8_() {
    assert_eq!(ceil_to_8(1), 8);
    assert_eq!(ceil_to_8(7), 8);
    assert_eq!(ceil_to_8(8), 8);
    assert_eq!(ceil_to_8(9), 16);
    assert_eq!(ceil_to_8(15), 16);
}

#[test]
fn bits2store_k_() {
    for value in [0u64, 1, 17, 50, 99] {
        assert_eq!(bits2store_k(value), value * 2);
    }
}

#[test]
fn bytes2store_k_() {
    assert_eq!(bytes2store_k(1), 1);
    assert_eq!(bytes2store_k(4), 1);
    assert_eq!(bytes2store_k(5), 2);
    assert_eq!(bytes2store_k(16), 4);
    assert_eq!(bytes2store_k(17), 5);
}

#[test]
fn pack_and_unpack_bits() {
    let bits = vec![true, false, true, true, false, false, false, true, true, true];
    let packed = kff::codec::pack_bits(&bits);
    assert_eq!(packed, vec![0b10110001, 0b11000000]);
    assert_eq!(kff::codec::unpack_bits(&packed, 10), bits);
}
