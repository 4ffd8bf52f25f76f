use kff::block::Block;
use kff::error::{Error, Kff};
use kff::global_index::GlobalIndex;
use kff::index::Index;
use kff::kmer::Kmer;
use kff::minimizer::Minimizer;
use kff::raw::Raw;
use kff::read::ByteReader;
use kff::values::Values;

fn bits(v: &[u8]) -> Vec<bool> {
    v.iter().map(|b| *b == 1).collect()
}

fn split(kmers: &[Kmer]) -> (Vec<Vec<bool>>, Vec<Vec<u8>>) {
    (
        kmers.iter().map(|k| k.seq2bit().clone()).collect(),
        kmers.iter().map(|k| k.data().clone()).collect(),
    )
}

fn three_kmers() -> Vec<Vec<bool>> {
    vec![
        bits(&[0, 0, 0, 1, 1, 0, 1, 1, 1, 1]),
        bits(&[0, 1, 1, 0, 1, 1, 1, 1, 1, 1]),
        bits(&[1, 0, 1, 1, 1, 1, 1, 1, 0, 1]),
    ]
}

fn values_of(pairs: &[(&str, u64)]) -> Values {
    let mut values = Values::with_capacity(pairs.len());
    for (k, v) in pairs {
        values.insert(k.to_string(), *v);
    }
    values
}

#[test]
fn block_full() {
    let readable: Vec<u8> = vec![3, 0b00011011, 0b11110100, 1, 2, 3];
    let block = Block::read_raw(&mut ByteReader::new(readable), 5, 1, 255).unwrap();
    let (kmers, datas) = split(&block.kmers());
    assert_eq!(kmers, three_kmers());
    assert_eq!(datas, vec![vec![1], vec![2], vec![3]]);
}

#[test]
fn block_no_data() {
    let readable: Vec<u8> = vec![3, 0b00011011, 0b11110100];
    let block = Block::read_raw(&mut ByteReader::new(readable), 5, 0, 255).unwrap();
    let (kmers, datas) = split(&block.kmers());
    assert_eq!(kmers, three_kmers());
    assert_eq!(datas, vec![Vec::<u8>::new(), vec![], vec![]]);
}

#[test]
fn block_max_one_kmer() {
    let readable: Vec<u8> = vec![0b00011011, 0b11000000, 1];
    let block = Block::read_raw(&mut ByteReader::new(readable), 5, 1, 1).unwrap();
    let (kmers, datas) = split(&block.kmers());
    assert_eq!(kmers, vec![bits(&[0, 0, 0, 1, 1, 0, 1, 1, 1, 1])]);
    assert_eq!(datas, vec![vec![1]]);
}

#[test]
fn block_write() {
    let block = Block::new(
        5,
        1,
        Kmer::new(bits(&[0, 0, 0, 1, 1, 0, 1, 1, 1, 1, 1, 1, 0, 1]), vec![1, 2, 3]),
        0,
    );
    let mut writable = Vec::new();
    block.write_raw(&mut writable, 255);
    assert_eq!(writable, vec![3, 0b00011011, 0b11110100, 1, 2, 3]);
}

#[test]
fn block_minimizer_full() {
    let readable: Vec<u8> = vec![3, 1, 0b00111101, 1, 2, 3];
    let minimizer = bits(&[0, 1, 1, 0, 1, 1]);
    let block =
        Block::read_minimizer(&mut ByteReader::new(readable), 5, 3, 1, 200, &minimizer).unwrap();
    assert_eq!(block.minimizer_offset(), 1);
    let (kmers, datas) = split(&block.kmers());
    assert_eq!(kmers, three_kmers());
    assert_eq!(datas, vec![vec![1], vec![2], vec![3]]);
}

#[test]
fn block_minimizer_no_data() {
    let readable: Vec<u8> = vec![3, 1, 0b00111101];
    let minimizer = bits(&[0, 1, 1, 0, 1, 1]);
    let block =
        Block::read_minimizer(&mut ByteReader::new(readable), 5, 3, 0, 100, &minimizer).unwrap();
    let (kmers, datas) = split(&block.kmers());
    assert_eq!(kmers, three_kmers());
    assert_eq!(datas, vec![Vec::<u8>::new(), vec![], vec![]]);
}

#[test]
fn block_minimizer_max_one_kmer() {
    let readable: Vec<u8> = vec![1, 0b00111101, 1];
    let minimizer = bits(&[0, 1, 1, 0, 1, 1]);
    let block =
        Block::read_minimizer(&mut ByteReader::new(readable), 5, 3, 1, 1, &minimizer).unwrap();
    let (kmers, datas) = split(&block.kmers());
    assert_eq!(kmers, vec![bits(&[0, 0, 0, 1, 1, 0, 1, 1, 1, 1])]);
    assert_eq!(datas, vec![vec![1]]);
}

#[test]
fn block_minimizer_write() {
    let block = Block::new(
        5,
        1,
        Kmer::new(bits(&[0, 0, 0, 1, 1, 0, 1, 1, 1, 1, 1, 1, 0, 1]), vec![1, 2, 3]),
        1,
    );
    let mut writable = Vec::new();
    block.write_minimizer(&mut writable, 3, 100);
    assert_eq!(writable, vec![3, 1, 0b00111101, 1, 2, 3]);
}

#[test]
fn minimizer_offset_out_of_range() {
    // count 3, offset 5: with k = 5 the block holds 7 nucleotides, and a
    // minimizer of 3 cannot start at 5.
    let readable: Vec<u8> = vec![3, 5, 0b00111101, 1, 2, 3];
    let minimizer = bits(&[0, 1, 1, 0, 1, 1]);
    let r = Block::read_minimizer(&mut ByteReader::new(readable), 5, 3, 1, 200, &minimizer);
    assert!(matches!(r, Err(Error::Kff(Kff::MinimizerOffsetOutOfRange(5)))));
}

#[test]
fn next_kmer_steps_through_block() {
    let readable: Vec<u8> = vec![3, 0b00011011, 0b11110100, 1, 2, 3];
    let mut block = Block::read_raw(&mut ByteReader::new(readable), 5, 1, 255).unwrap();
    let mut seen = Vec::new();
    while let Some(kmer) = block.next_kmer() {
        seen.push(kmer);
    }
    let (kmers, datas) = split(&seen);
    assert_eq!(kmers, three_kmers());
    assert_eq!(datas, vec![vec![1], vec![2], vec![3]]);
    assert!(block.next_kmer().is_none());
}

#[test]
fn raw_creation() {
    let mut values = Values::with_capacity(4);
    assert!(Raw::new(&values).is_err());
    values.insert("k".to_string(), 5);
    assert!(Raw::new(&values).is_err());
    values.insert("ordered".to_string(), false as u64);
    assert!(Raw::new(&values).is_err());
    values.insert("max".to_string(), 255);
    assert!(Raw::new(&values).is_err());
    values.insert("data_size".to_string(), 1);
    assert!(Raw::new(&values).is_ok());
}

#[test]
fn raw_missing_field_and_zero_max() {
    let values = values_of(&[("k", 5), ("data_size", 1)]);
    match Raw::new(&values) {
        Err(Error::Kff(Kff::FieldIsMissing(name))) => assert_eq!(name, "max"),
        _ => panic!("max should be missing"),
    }
    let values = values_of(&[("k", 5), ("max", 0), ("data_size", 1)]);
    assert!(matches!(Raw::new(&values), Err(Error::Kff(Kff::MaxValueIsTooLarge(0)))));
    let raw = Raw::new(&values_of(&[("k", 5), ("max", 7), ("data_size", 1), ("ordered", 1)])).unwrap();
    assert_eq!((raw.k(), raw.max(), raw.data_size(), raw.ordered()), (5, 7, 1, true));
}

#[test]
fn raw_read() {
    let values = values_of(&[("k", 5), ("ordered", 0), ("max", 255), ("data_size", 1)]);
    let raw = Raw::new(&values).unwrap();
    let data: Vec<u8> = vec![
        0, 0, 0, 0, 0, 0, 0, 3, // number of block
        3, 0b00011011, 0b11110100, 1, 2, 3, // one block with 3 kmer and 1 bytes data
        2, 0b00011011, 0b11110000, 1, 2, // one block with 2 kmer and 1 bytes data
        1, 0b00011011, 0b11000000, 1, // one block with 1 kmer and 1 bytes data
    ];
    let kmers = raw.read(&mut ByteReader::new(data)).unwrap();
    let t = three_kmers();
    assert_eq!(
        kmers,
        vec![
            Kmer::new(t[0].clone(), vec![1]),
            Kmer::new(t[1].clone(), vec![2]),
            Kmer::new(t[2].clone(), vec![3]),
            Kmer::new(t[0].clone(), vec![1]),
            Kmer::new(t[1].clone(), vec![2]),
            Kmer::new(t[0].clone(), vec![1]),
        ]
    );
}

fn three_blocks(offset: u64) -> Vec<Block> {
    vec![
        Block::new(
            5,
            1,
            Kmer::new(bits(&[0, 0, 0, 1, 1, 0, 1, 1, 1, 1, 1, 1, 0, 1]), vec![1, 2, 3]),
            offset,
        ),
        Block::new(5, 1, Kmer::new(bits(&[0, 0, 0, 1, 1, 0, 1, 1, 1, 1, 1, 1]), vec![1, 2]), offset),
        Block::new(5, 1, Kmer::new(bits(&[0, 0, 0, 1, 1, 0, 1, 1, 1, 1]), vec![1]), offset),
    ]
}

#[test]
fn raw_write() {
    let values = values_of(&[("k", 5), ("ordered", 0), ("max", 255), ("data_size", 1)]);
    let raw = Raw::new(&values).unwrap();
    let mut writable = Vec::new();
    raw.write(&mut writable, &three_blocks(0));
    assert_eq!(
        writable,
        vec![
            0, 0, 0, 0, 0, 0, 0, 3, // number of block
            3, 0b00011011, 0b11110100, 1, 2, 3, // one block with 3 kmer and 1 bytes data
            2, 0b00011011, 0b11110000, 1, 2, // one block with 2 kmer and 1 bytes data
            1, 0b00011011, 0b11000000, 1, // one block with 1 kmer and 1 bytes data
        ]
    );
}

#[test]
fn minimizer_creation() {
    let mut values = Values::with_capacity(4);
    assert!(Minimizer::new(&values).is_err());
    values.insert("k".to_string(), 5);
    assert!(Minimizer::new(&values).is_err());
    values.insert("m".to_string(), 2);
    assert!(Minimizer::new(&values).is_err());
    values.insert("ordered".to_string(), false as u64);
    assert!(Minimizer::new(&values).is_err());
    values.insert("max".to_string(), 255);
    assert!(Minimizer::new(&values).is_err());
    values.insert("data_size".to_string(), 1);
    assert!(Minimizer::new(&values).is_ok());
}

#[test]
fn minimizer_read() {
    let values = values_of(&[("k", 5), ("m", 3), ("ordered", 0), ("max", 100), ("data_size", 1)]);
    let minimizer = Minimizer::new(&values).unwrap();
    let data: Vec<u8> = vec![
        0b01101100, // minimizer sequence
        0, 0, 0, 0, 0, 0, 0, 3, // number of block
        3, 1, 0b00111101, 1, 2, 3, // one block with 3 kmer and 1 bytes data
        2, 1, 0b00111111, 1, 2, // one block with 2 kmer and 1 bytes data
        1, 1, 0b00110000, 1, // one block with 1 kmer and 1 bytes data
    ];
    let kmers = minimizer.read(&mut ByteReader::new(data)).unwrap();
    let t = three_kmers();
    assert_eq!(
        kmers,
        vec![
            Kmer::new(t[0].clone(), vec![1]),
            Kmer::new(t[1].clone(), vec![2]),
            Kmer::new(t[2].clone(), vec![3]),
            Kmer::new(t[0].clone(), vec![1]),
            Kmer::new(t[1].clone(), vec![2]),
            Kmer::new(t[0].clone(), vec![1]),
        ]
    );
}

#[test]
fn minimizer_write() {
    let values = values_of(&[("k", 5), ("m", 3), ("ordered", 0), ("max", 100), ("data_size", 1)]);
    let minimizer = Minimizer::new(&values).unwrap();
    let mut writable = Vec::new();
    minimizer.write(&mut writable, &bits(&[0, 1, 1, 0, 1, 1]), &three_blocks(1));
    assert_eq!(
        writable,
        vec![
            0b01101100, // minimizer sequence
            0, 0, 0, 0, 0, 0, 0, 3, // number of block
            3, 1, 0b00111101, 1, 2, 3, // one block with 3 kmer and 1 bytes data
            2, 1, 0b00111100, 1, 2, // one block with 2 kmer and 1 bytes data
            1, 1, 0b00110000, 1, // one block with 1 kmer and 1 bytes data
        ]
    );
}

#[test]
fn write_single_block() {
    let values = values_of(&[("k", 5), ("m", 4), ("ordered", 0), ("max", 100), ("data_size", 1)]);
    let minimizer = Minimizer::new(&values).unwrap();
    let mut writable = Vec::new();
    let minimizer_val = bits(&[0, 1, 1, 0, 1, 1, 0, 1]);
    let block = Block::new(
        5,
        1,
        Kmer::new(
            bits(&[0, 0, 1, 0, 1, 1, 0, 1, 0, 1, 1, 0, 1, 1, 0, 1, 1, 1]),
            vec![1, 2, 3],
        ),
        4,
    );
    minimizer.write(&mut writable, &minimizer_val, &[block]);
    assert_eq!(
        writable,
        vec![
            0b01101101, // minimizer sequence
            0, 0, 0, 0, 0, 0, 0, 1, // number of block
            5, 4, 0b00101101, 0b11000000, 1, 2, // kmer without minimizer
            3, // one block with 3 kmer and 1 bytes data
        ]
    );
}

const INDEX: &[u8] = &[
    0, 0, 0, 0, 0, 0, 0, 3, // number of pair
    b'r', 0, 0, 0, 0, 0, 0, 55, 255, // Raw section
    b't', 255, 0, 0, 0, 0, 0, 0, 255, // a T section with value in past
    b'm', 0, 0, 0, 0, 0, 255, 0, 255, // Minimizer section
    0, 0, 0, 0, 0, 45, 33, 0, // Next index section
];

#[test]
fn index_read() {
    let index = Index::read(&mut ByteReader::new(INDEX.to_vec())).unwrap();
    assert_eq!(
        index.pair(),
        &vec![(b'r', 14335), (b't', -72057594037927681), (b'm', 16711935)]
    );
    assert_eq!(index.next_index(), 2957568);
}

#[test]
fn index_write() {
    let index = Index::read(&mut ByteReader::new(INDEX.to_vec())).unwrap();
    let mut output = Vec::new();
    index.write(&mut output);
    assert_eq!(output, INDEX.to_vec());
}

#[test]
fn global_index_create() {
    let file = vec![
        b'i', // Index start
        0, 0, 0, 0, 0, 0, 0, 3, // Number of value indexed
        b'r', 0, 0, 0, 0, 0, 0, 0, 1, // Raw section
        b'i', 0, 0, 0, 0, 0, 0, 0, 0, // Index refere to them self
        b'm', 0, 0, 0, 0, 0, 0, 0, 3, // Minimizer section
        0, 0, 0, 0, 0, 0, 0, 1, // Next index section
        b'i', // Index start
        0, 0, 0, 0, 0, 0, 0, 3, // Number of value indexed
        b't', 255, 255, 255, 255, 255, 255, 255, 253, // a T section with value in past
        b'r', 0, 0, 0, 0, 0, 0, 0, 1, // Raw section
        b'm', 0, 0, 0, 0, 0, 0, 0, 3, // Minimizer section
        0, 0, 0, 0, 0, 0, 0, 9, // Next index section
        0, 0, 0, 0, 0, 0, 0, 0, // empty part
        b'i', // Index start
        0, 0, 0, 0, 0, 0, 0, 3, // Number of value indexed
        b'm', 0, 0, 0, 0, 0, 0, 0, 3, // Minimizer section
        b'r', 0, 0, 0, 0, 0, 0, 0, 1, // Raw section
        b't', 255, 255, 255, 255, 255, 255, 255, 253, // a T section with value in past
        0, 0, 0, 0, 0, 0, 0, 0, // Next index section
    ];
    let index = GlobalIndex::new(&mut ByteReader::new(file), 0).unwrap();
    assert_eq!(
        index.pair(),
        &vec![
            (105, 44),
            (114, 45),
            (109, 47),
            (116, 85),
            (114, 89),
            (109, 91),
            (116, 137),
            (114, 141),
            (109, 143)
        ]
    );
}

#[test]
fn global_index_not_an_index() {
    let r = GlobalIndex::new(&mut ByteReader::new(vec![b'v', 0, 0]), 0);
    assert!(matches!(r, Err(Error::Kff(Kff::NotAnIndex))));
}

#[test]
fn block_count_consistency() {
    // count 4, k 3, two bytes of data per k-mer: 6 nucleotides, 8 data bytes.
    let readable: Vec<u8> = vec![4, 0b00011011, 0b11100000, 1, 2, 3, 4, 5, 6, 7, 8];
    let block = Block::read_raw(&mut ByteReader::new(readable), 3, 2, 255).unwrap();
    assert_eq!(block.kmer().seq2bit().len(), 2 * (4 + 3 - 1));
    assert_eq!(block.kmer().data().len(), 4 * 2);
    let kmers = block.kmers();
    assert_eq!(kmers.len(), 4);
    assert_eq!(kmers[3].seq2bit(), &bits(&[1, 1, 1, 1, 1, 0]));
    assert_eq!(kmers[3].data(), &vec![7, 8]);
}

#[test]
fn values_clone_keeps_entries() {
    let values = values_of(&[("k", 5), ("max", 9)]);
    let copy = values.clone();
    assert_eq!(copy.get("k"), Some(5));
    assert_eq!(copy.get("max"), Some(9));
    assert_eq!(copy.entries().len(), 2);
}
