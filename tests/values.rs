use kff::error::Error;
use kff::read::ByteReader;
use kff::values::Values;

const FOUR: &[u8] = &[
    0, 0, 0, 0, 0, 0, 0, 4, 109, 97, 120, 0, 0, 0, 0, 0, 0, 0, 0, 255, 100, 97, 116, 97, 95, 115,
    105, 122, 101, 0, 0, 0, 0, 0, 0, 0, 0, 1, 111, 114, 100, 101, 114, 0, 0, 0, 0, 0, 0, 0, 0, 0,
    107, 0, 0, 0, 0, 0, 0, 0, 0, 15,
];

fn sorted_entries(values: &Values) -> (Vec<String>, Vec<u64>) {
    let entries = values.entries();
    let mut keys: Vec<String> = entries.iter().map(|e| e.0.clone()).collect();
    let mut vals: Vec<u64> = entries.iter().map(|e| e.1).collect();
    keys.sort();
    vals.sort();
    (keys, vals)
}

#[test]
fn values_creation() {
    let default = Values::new();
    assert!(default.entries().is_empty());
    let capacity = Values::with_capacity(20);
    assert!(capacity.entries().is_empty());
}

#[test]
fn values_read() {
    let values = Values::read(&mut ByteReader::new(FOUR.to_vec())).unwrap();
    let (keys, vals) = sorted_entries(&values);
    assert_eq!(
        keys,
        [
            "data_size".to_string(),
            "k".to_string(),
            "max".to_string(),
            "order".to_string(),
        ]
    );
    assert_eq!(vals, [0, 1, 15, 255]);
}

#[test]
fn values_write() {
    let mut values = Values::with_capacity(20);
    values.insert("k".to_string(), 15);
    values.insert("order".to_string(), 0);
    values.insert("max".to_string(), 255);
    values.insert("data_size".to_string(), 1);
    let mut outer = Vec::new();
    values.write(&mut outer);
    assert_eq!(outer, FOUR.to_vec());
}

#[test]
fn write_as_footer() {
    let mut values = Values::with_capacity(20);
    values.insert("k".to_string(), 15);
    values.insert("order".to_string(), 0);
    values.insert("max".to_string(), 255);
    values.insert("data_size".to_string(), 1);
    let mut outer = Vec::new();
    values.write_as_footer(&mut outer).unwrap();
    assert_eq!(
        outer,
        &[
            0, 0, 0, 0, 0, 0, 0, 5, 109, 97, 120, 0, 0, 0, 0, 0, 0, 0, 0, 255, 100, 97, 116, 97,
            95, 115, 105, 122, 101, 0, 0, 0, 0, 0, 0, 0, 0, 1, 111, 114, 100, 101, 114, 0, 0, 0, 0,
            0, 0, 0, 0, 0, 107, 0, 0, 0, 0, 0, 0, 0, 0, 15, 102, 111, 111, 116, 101, 114, 95, 115,
            105, 122, 101, 0, 0, 0, 0, 0, 0, 0, 0, 83
        ]
    );
    assert_eq!(outer.len(), *outer.last().unwrap() as usize - 1);
}

#[test]
fn over_rigth() {
    let mut variables = Values::new();
    variables.insert("k".to_string(), 15);
    assert_eq!(variables.get("k"), Some(15u64));
    variables.insert("k".to_string(), 12);
    assert_eq!(variables.get("k"), Some(12u64));
}

#[test]
fn create_write_read_access() {
    let mut variables = Values::new();
    variables.insert("k".to_string(), 15);
    variables.insert("max".to_string(), 255);
    variables.insert("data_size".to_string(), 0);
    let mut output = Vec::new();
    variables.write(&mut output);
    let var2 = Values::read(&mut ByteReader::new(output)).unwrap();
    assert_eq!(var2.get("k"), Some(15u64));
    assert_eq!(var2.get("k"), variables.get("k"));
    assert_eq!(var2.get("max"), Some(255u64));
    assert_eq!(var2.get("max"), variables.get("max"));
    assert_eq!(var2.get("data_size"), Some(0u64));
    assert_eq!(var2.get("data_size"), variables.get("data_size"));
}

#[test]
fn later_entries_override() {
    let bytes = vec![
        0, 0, 0, 0, 0, 0, 0, 2, b'k', 0, 0, 0, 0, 0, 0, 0, 0, 5, b'k', 0, 0, 0, 0, 0, 0, 0, 0, 7,
    ];
    let values = Values::read(&mut ByteReader::new(bytes)).unwrap();
    assert_eq!(values.get("k"), Some(7));
    assert_eq!(values.entries().len(), 1);
}

#[test]
fn name_not_utf8() {
    let bytes = vec![0, 0, 0, 0, 0, 0, 0, 1, 0xff, 0, 0, 0, 0, 0, 0, 0, 0, 5];
    let r = Values::read(&mut ByteReader::new(bytes));
    assert!(matches!(r, Err(Error::FromUtf8(_))));
}

#[test]
fn truncated_values() {
    let bytes = vec![0, 0, 0, 0, 0, 0, 0, 1, b'k', 0, 0, 0];
    assert!(matches!(Values::read(&mut ByteReader::new(bytes)), Err(Error::UnexpectedEof)));
    let bytes = vec![0, 0, 0, 0, 0, 0, 0, 1, b'k'];
    assert!(matches!(Values::read(&mut ByteReader::new(bytes)), Err(Error::UnexpectedEof)));
}

#[test]
fn typed_accessors() {
    let mut values = Values::new();
    values.insert("k".to_string(), 31);
    values.insert("max".to_string(), 200);
    assert_eq!(values.k().unwrap(), 31);
    assert_eq!(values.max().unwrap(), 200);
    match values.data_size() {
        Err(Error::Kff(kff::error::Kff::FieldIsMissing(name))) => assert_eq!(name, "data_size"),
        _ => panic!("data_size is missing"),
    }
    assert!(values.m().is_err());
    assert!(values.ordered().is_err());
    assert!(values.first_index().is_err());
    assert!(values.footer_size().is_err());
}
