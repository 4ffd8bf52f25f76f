use kff::block::Block;
use kff::error::{Error, Kff as KffError};
use kff::header::Header;
use kff::index::Index;
use kff::kff::Kff;
use kff::kmer::Kmer;
use kff::minimizer::Minimizer;
use kff::raw::Raw;
use kff::values::Values;

// The encoding byte 0b00101101 gives A, C, G and T the codes 00, 10, 11, 01.
const KFF_FILE: &[u8] = &[
    b'K', b'F', b'F', // Magic number
    1,    // Major version number
    0,    // Minor version number
    0b00101101, // Encoding
    1,    // Uniq kmer
    0,    // Canonical kmer
    0, 0, 0, 4, // Free space size
    b't', b'e', b's', b't', // Free space
    b'v', // Footer
    0, 0, 0, 0, 0, 0, 0, 1, // Footer nb variables
    b'f', b'o', b'o', b't', b'e', b'r', b'_', b's', b'i', b'z', b'e',
    0, // name of variable footer_size
    0, 0, 0, 0, 0, 0, 0, 29, // value of variable footer_size
    b'K', b'F', b'F', // Magic number
];

fn bits(v: &[u8]) -> Vec<bool> {
    v.iter().map(|b| *b == 1).collect()
}

fn values_of(pairs: &[(&str, u64)]) -> Values {
    let mut values = Values::new();
    for (k, v) in pairs {
        values.insert(k.to_string(), *v);
    }
    values
}

fn header() -> Header {
    Header::new(1, 0, 0b00011011, true, true, b"".to_vec()).unwrap()
}

#[test]
fn kff_check_header() {
    let reader = Kff::read(KFF_FILE.to_vec()).unwrap();
    assert_eq!(reader.header().major_version(), 1);
    assert_eq!(reader.header().minor_version(), 0);
    assert_eq!(reader.header().encoding(), 0b00101101);
    assert!(reader.header().uniq_kmer());
    assert!(!reader.header().canonical_kmer());
    assert_eq!(reader.header().free_block(), &b"test".to_vec());
}

#[test]
fn kff_check() {
    let inner_len = KFF_FILE.len();
    let file = Kff::read(KFF_FILE.to_vec()).unwrap();
    assert!(file.check().unwrap());
    let mut readable = KFF_FILE.to_vec();
    readable[1] = b'K';
    assert!(Kff::read(readable.clone()).is_err());
    readable[1] = b'F';
    readable[inner_len - 1] = b'K';
    let file = Kff::read(readable).unwrap();
    assert!(file.check().is_err());
}

#[test]
fn load_footer() {
    let inner_len = KFF_FILE.len();
    let mut reader = Kff::read(KFF_FILE.to_vec()).unwrap();
    let footer = reader.load_footer().unwrap();
    assert_eq!(footer.get("footer_size"), Some(29));
    assert_eq!(footer.entries().len(), 1);
    let mut broken = KFF_FILE.to_vec();
    broken[inner_len - 32] = b'f';
    let mut reader = Kff::read(broken).unwrap();
    assert!(reader.load_footer().is_err());
}

#[test]
fn footer_size_not_correct() {
    let mut broken = KFF_FILE.to_vec();
    let n = broken.len();
    broken[n - 4] = 28;
    let mut reader = Kff::read(broken).unwrap();
    assert!(matches!(
        reader.load_footer(),
        Err(Error::Kff(KffError::FooterSizeNotCorrect))
    ));
}

#[test]
fn seek() {
    let mut reader = Kff::read(KFF_FILE.to_vec()).unwrap();
    assert_eq!(reader.seek(2), 2);
}

#[test]
fn magic_guard() {
    let mut no_start = KFF_FILE.to_vec();
    no_start[0] = b'X';
    assert!(matches!(Kff::read(no_start), Err(Error::Kff(KffError::MissingMagic(_)))));
    let mut no_end = KFF_FILE.to_vec();
    let n = no_end.len();
    no_end[n - 2] = b'X';
    let file = Kff::read(no_end).unwrap();
    match file.check() {
        Err(Error::Kff(KffError::MissingMagic(place))) => assert_eq!(place, "end"),
        _ => panic!("the end magic is missing"),
    }
}

#[test]
fn kff_write() {
    let header = Header::new(1, 0, 0b00011011, true, true, b"".to_vec()).unwrap();
    let mut writer = Kff::write(Vec::new(), header).unwrap();
    let mut values = Values::new();
    values.insert("k".to_string(), 5);
    values.insert("m".to_string(), 3);
    values.insert("ordered".to_string(), false as u64);
    values.insert("max".to_string(), 200);
    values.insert("data_size".to_string(), 1);
    writer.write_values(values.clone()).unwrap();
    writer
        .write_raw(
            Raw::new(&values).unwrap(),
            &[
                Block::new(5, 1, Kmer::new(bits(&[0, 0, 0, 1, 1, 0, 1, 1, 1, 1, 1, 1, 0, 1]), vec![1, 2, 3]), 0),
                Block::new(5, 1, Kmer::new(bits(&[0, 0, 0, 1, 1, 0, 1, 1, 1, 1, 1, 1]), vec![1, 2]), 0),
                Block::new(5, 1, Kmer::new(bits(&[0, 0, 0, 1, 1, 0, 1, 1, 1, 1]), vec![1]), 0),
            ],
        )
        .unwrap();
    writer
        .write_minimizer(
            Minimizer::new(&values).unwrap(),
            &bits(&[0, 1, 1, 0, 1, 1]),
            &[
                Block::new(5, 1, Kmer::new(bits(&[0, 0, 0, 1, 1, 0, 1, 1, 1, 1, 1, 1, 0, 1]), vec![1, 2, 3]), 1),
                Block::new(5, 1, Kmer::new(bits(&[0, 0, 0, 1, 1, 0, 1, 1, 1, 1, 1, 1]), vec![1, 2]), 1),
                Block::new(5, 1, Kmer::new(bits(&[0, 0, 0, 1, 1, 0, 1, 1, 1, 1]), vec![1]), 1),
            ],
        )
        .unwrap();
    writer
        .write_index(Index::new(vec![(b'v', -30), (b'r', -25), (b'm', -20)], 0))
        .unwrap();
    writer.finalize().unwrap();
    let inner = writer.into_inner();
    assert_eq!(
        inner,
        vec![
            b'K', b'F', b'F', //
            1, 0, // Version number
            27, // Encoding
            1, 1, // Uniq, Canonical
            0, 0, 0, 0, // Free space size length
            b'v', 0, 0, 0, 0, 0, 0, 0, 5, // Five values
            b'o', b'r', b'd', b'e', b'r', b'e', b'd', 0, 0, 0, 0, 0, 0, 0, 0, 0, //
            b'd', b'a', b't', b'a', b'_', b's', b'i', b'z', b'e', 0, 0, 0, 0, 0, 0, 0, 0, 1,
            b'm', 0, 0, 0, 0, 0, 0, 0, 0, 3, //
            b'k', 0, 0, 0, 0, 0, 0, 0, 0, 5, //
            b'm', b'a', b'x', 0, 0, 0, 0, 0, 0, 0, 0, 200, //
            b'r', 0, 0, 0, 0, 0, 0, 0, 3, // Three block
            3, 27, 244, 1, 2, 3, // Three kmer in block
            2, 27, 240, 1, 2, // Two kmer in block
            1, 27, 192, 1, // One kmer in block
            b'm', //
            108, // minimizer sequence
            0, 0, 0, 0, 0, 0, 0, 3, // Three block
            3, 1, 61, 1, 2, 3, // Three kmer minimizer at offset 1
            2, 1, 60, 1, 2, // Two kmer minimizer at offset 1
            1, 1, 48, 1, // One kmer minimizer at offset 1
            b'i', 0, 0, 0, 0, 0, 0, 0, 3, // Three section indexed
            b'v', 255, 255, 255, 255, 255, 255, 255, 226, // Value section
            b'r', 255, 255, 255, 255, 255, 255, 255, 231, // Raw section
            b'm', 255, 255, 255, 255, 255, 255, 255, 236, // Minimizer section
            0, 0, 0, 0, 0, 0, 0, 0, // No other index
            b'K', b'F', b'F', //
        ]
    );
}

fn minimal_raw_file(values: &[(&str, u64)], block: Block) -> Vec<u8> {
    let mut writer = Kff::write(Vec::new(), header()).unwrap();
    let values = values_of(values);
    writer.write_values(values.clone()).unwrap();
    writer.write_raw(Raw::new(&values).unwrap(), &[block]).unwrap();
    writer.finalize().unwrap();
    writer.into_inner()
}

fn streamed(file: Vec<u8>) -> (Vec<Vec<bool>>, Vec<Vec<u8>>) {
    let mut reader = Kff::read(file).unwrap();
    let kmers = reader.kmers().unwrap();
    (
        kmers.iter().map(|k| k.seq2bit().clone()).collect(),
        kmers.iter().map(|k| k.data().clone()).collect(),
    )
}

#[test]
fn minimal_raw() {
    let block = Block::new(
        5,
        1,
        Kmer::new(bits(&[0, 0, 0, 1, 1, 0, 1, 1, 1, 1, 1, 1, 0, 1]), vec![1, 2, 3]),
        0,
    );
    let file = minimal_raw_file(&[("k", 5), ("max", 200), ("data_size", 1), ("ordered", 1)], block);
    assert_eq!(&file[file.len() - 3..], b"KFF");
    let (kmers, datas) = streamed(file);
    assert_eq!(
        kmers,
        vec![
            bits(&[0, 0, 0, 1, 1, 0, 1, 1, 1, 1]),
            bits(&[0, 1, 1, 0, 1, 1, 1, 1, 1, 1]),
            bits(&[1, 0, 1, 1, 1, 1, 1, 1, 0, 1]),
        ]
    );
    assert_eq!(datas, vec![vec![1], vec![2], vec![3]]);
}

#[test]
fn minimizer_splice() {
    let mut writer = Kff::write(Vec::new(), header()).unwrap();
    let values = values_of(&[("k", 5), ("m", 3), ("max", 200), ("data_size", 1)]);
    writer.write_values(values.clone()).unwrap();
    let block = Block::new(
        5,
        1,
        Kmer::new(bits(&[0, 0, 0, 1, 1, 0, 1, 1, 1, 1, 1, 1, 0, 1]), vec![1, 2, 3]),
        1,
    );
    writer
        .write_minimizer(Minimizer::new(&values).unwrap(), &bits(&[0, 1, 1, 0, 1, 1]), &[block])
        .unwrap();
    writer.finalize().unwrap();
    let file = writer.into_inner();
    let (kmers, datas) = streamed(file);
    assert_eq!(
        kmers,
        vec![
            bits(&[0, 0, 0, 1, 1, 0, 1, 1, 1, 1]),
            bits(&[0, 1, 1, 0, 1, 1, 1, 1, 1, 1]),
            bits(&[1, 0, 1, 1, 1, 1, 1, 1, 0, 1]),
        ]
    );
    assert_eq!(datas, vec![vec![1], vec![2], vec![3]]);
}

#[test]
fn implicit_single_kmer_block() {
    let block = Block::new(5, 1, Kmer::new(bits(&[0, 0, 0, 1, 1, 0, 1, 1, 1, 1]), vec![1]), 0);
    let file = minimal_raw_file(&[("k", 5), ("max", 1), ("data_size", 1)], block);
    let (kmers, datas) = streamed(file);
    assert_eq!(kmers, vec![bits(&[0, 0, 0, 1, 1, 0, 1, 1, 1, 1])]);
    assert_eq!(datas, vec![vec![1]]);
}

#[test]
fn data_size_zero() {
    let block = Block::new(
        5,
        0,
        Kmer::new(bits(&[0, 0, 0, 1, 1, 0, 1, 1, 1, 1, 1, 1, 0, 1]), vec![]),
        0,
    );
    let file = minimal_raw_file(&[("k", 5), ("max", 255), ("data_size", 0)], block);
    let (kmers, datas) = streamed(file);
    assert_eq!(kmers.len(), 3);
    assert_eq!(datas, vec![Vec::<u8>::new(), vec![], vec![]]);
}

#[test]
fn footer_round_trip() {
    let mut writer = Kff::write(Vec::new(), header()).unwrap();
    let values = values_of(&[("k", 5), ("max", 200), ("data_size", 1)]);
    writer.write_values(values.clone()).unwrap();
    let block = Block::new(5, 1, Kmer::new(bits(&[0, 0, 0, 1, 1, 0, 1, 1, 1, 1]), vec![9]), 0);
    writer.write_raw(Raw::new(&values).unwrap(), &[block]).unwrap();
    writer.write_footer(Values::new()).unwrap();
    writer.finalize().unwrap();
    let file = writer.into_inner();
    let n = file.len();
    let mut reader = Kff::read(file.clone()).unwrap();
    let footer = reader.load_footer().unwrap();
    assert_eq!(footer.get("footer_size"), Some(29));
    assert_eq!(file[n - 3 - 29], b'v');
    let (kmers, _) = streamed(file);
    assert_eq!(kmers.len(), 1);
}

#[test]
fn not_a_section_prefix() {
    let mut file = Kff::write(Vec::new(), header()).unwrap().into_inner();
    file.push(b'x');
    let mut reader = Kff::read(file).unwrap();
    assert!(matches!(
        reader.next_kmer_section(),
        Some(Err(Error::Kff(KffError::NotASectionPrefix(b'x'))))
    ));
}

#[test]
fn missing_field_in_stream() {
    let mut writer = Kff::write(Vec::new(), header()).unwrap();
    writer.write_values(values_of(&[("k", 5), ("max", 200)])).unwrap();
    let mut file = writer.into_inner();
    file.extend_from_slice(&[b'r', 0, 0, 0, 0, 0, 0, 0, 0]);
    let mut reader = Kff::read(file).unwrap();
    match reader.next_kmer_section() {
        Some(Err(Error::Kff(KffError::FieldIsMissing(name)))) => assert_eq!(name, "data_size"),
        _ => panic!("data_size is missing"),
    }
}

#[test]
fn indexed_random_access() {
    let mut writer = Kff::write(Vec::new(), header()).unwrap();
    let values = values_of(&[("k", 5), ("max", 200), ("data_size", 1)]);
    let values_at = writer.written_bytes().len() as i64;
    writer.write_values(values.clone()).unwrap();
    let raw_at = writer.written_bytes().len() as i64;
    let block = Block::new(
        5,
        1,
        Kmer::new(bits(&[0, 0, 0, 1, 1, 0, 1, 1, 1, 1, 1, 1, 0, 1]), vec![1, 2, 3]),
        0,
    );
    writer.write_raw(Raw::new(&values).unwrap(), &[block]).unwrap();
    let index_at = writer.written_bytes().len() as i64;
    let index_end = index_at + 1 + 8 + 2 * 9 + 8;
    writer
        .write_index(Index::new(vec![(b'v', values_at - index_end), (b'r', raw_at - index_end)], 0))
        .unwrap();
    let mut footer = Values::new();
    footer.insert("first_index".to_string(), index_at as u64);
    writer.write_footer(footer).unwrap();
    writer.finalize().unwrap();
    let file = writer.into_inner();

    let mut streaming = Kff::read(file.clone()).unwrap();
    let first = streaming.next_kmer_section().unwrap().unwrap();

    let mut reader = Kff::with_index(file).unwrap();
    let pairs = reader.index().as_ref().unwrap().pair().clone();
    assert_eq!(pairs, vec![(b'v', values_at as u64), (b'r', raw_at as u64)]);
    let kmers = reader.kmer_of_section(1).unwrap();
    assert_eq!(kmers, first);
    assert!(matches!(
        reader.kmer_of_section(0),
        Err(Error::Kff(KffError::NoValueSectionBeforeTarget))
    ));
    assert!(matches!(
        reader.kmer_of_section(5),
        Err(Error::Kff(KffError::NotAKmerSection))
    ));
    let mut plain = Kff::read(KFF_FILE.to_vec()).unwrap();
    assert!(matches!(plain.kmer_of_section(0), Err(Error::Kff(KffError::NoIndex))));
}

#[test]
fn no_first_index() {
    let mut plain = KFF_FILE.to_vec();
    plain[5] = 0b00011011;
    assert!(matches!(
        Kff::with_index(plain),
        Err(Error::Kff(KffError::NoFirstIndex))
    ));
}

#[test]
fn magic_guard_start_text() {
    let mut reader = kff::read::ByteReader::new(b"KKF".to_vec());
    match Header::read(&mut reader) {
        Err(Error::Kff(KffError::MissingMagic(place))) => assert_eq!(place, "start"),
        _ => panic!("the start magic is missing"),
    }
    let mut bytes = KFF_FILE.to_vec();
    bytes[0] = b'X';
    match Kff::read(bytes) {
        Err(Error::Kff(KffError::MissingMagic(place))) => assert_eq!(place, "start"),
        _ => panic!("the start magic is missing"),
    }
}

#[test]
fn values_kept_after_end_of_stream() {
    let mut writer = Kff::write(Vec::new(), header()).unwrap();
    writer.write_values(values_of(&[("k", 7), ("max", 3)])).unwrap();
    writer.finalize().unwrap();
    let mut reader = Kff::read(writer.into_inner()).unwrap();
    assert!(reader.next_kmer_section().is_none());
    assert_eq!(reader.values().get("k"), Some(7));
    assert_eq!(reader.values().get("max"), Some(3));
}

#[test]
fn minimizer_missing_field_name() {
    let values = values_of(&[("k", 5), ("max", 9), ("data_size", 1)]);
    match Minimizer::new(&values) {
        Err(Error::Kff(KffError::FieldIsMissing(name))) => assert_eq!(name, "m"),
        _ => panic!("m is missing"),
    }
}

#[test]
fn several_sections_round_trip() {
    let mut writer = Kff::write(Vec::new(), header()).unwrap();
    let first = values_of(&[("k", 5), ("m", 3), ("max", 200), ("data_size", 1)]);
    writer.write_values(first.clone()).unwrap();
    let raw_block = Block::new(5, 1, Kmer::new(bits(&[0, 0, 0, 1, 1, 0, 1, 1, 1, 1]), vec![7]), 0);
    writer.write_raw(Raw::new(&first).unwrap(), &[raw_block]).unwrap();
    writer.write_index(Index::new(vec![(b'r', -20)], 0)).unwrap();
    let min_block = Block::new(
        5,
        1,
        Kmer::new(bits(&[0, 0, 0, 1, 1, 0, 1, 1, 1, 1, 1, 1, 0, 1]), vec![1, 2, 3]),
        1,
    );
    writer
        .write_minimizer(Minimizer::new(&first).unwrap(), &bits(&[0, 1, 1, 0, 1, 1]), &[min_block])
        .unwrap();
    let last = values_of(&[("k", 2), ("max", 1), ("data_size", 0)]);
    writer.write_values(last).unwrap();
    writer.finalize().unwrap();
    let mut reader = Kff::read(writer.into_inner()).unwrap();
    let s1 = reader.next_kmer_section().unwrap().unwrap();
    assert_eq!(s1.len(), 1);
    assert_eq!(s1[0].data(), &vec![7]);
    let s2 = reader.next_kmer_section().unwrap().unwrap();
    assert_eq!(s2.len(), 3);
    assert_eq!(s2[2].seq2bit(), &bits(&[1, 0, 1, 1, 1, 1, 1, 1, 0, 1]));
    assert!(reader.next_kmer_section().is_none());
    assert_eq!(reader.values().get("k"), Some(2));
    assert_eq!(reader.values().get("m"), None);
}
