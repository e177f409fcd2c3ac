use locustdb::errors::QueryError;
use locustdb::stringpack::{
    IndexedPackedStrings, PackedBytes, PackedBytesIterator, PackedStrings, StringPackerIterator,
};

fn text_of_len(len: usize) -> String {
    let mut text = String::new();
    for i in 0..len {
        text.push((b'a' + (i % 26) as u8) as char);
    }
    text
}

fn unpack_strings(data: &[u8]) -> Vec<String> {
    let mut iter = StringPackerIterator::from_slice(data);
    let mut result = Vec::new();
    while let Some(s) = iter.next() {
        result.push(s.to_string());
    }
    result
}

#[test]
fn indexed_packed_strings_round_trip() {
    let inputs = vec!["hello", "", "wörld", "日本語", "x"];
    let mut strings = IndexedPackedStrings::new();
    for s in &inputs {
        assert!(strings.push(s).is_ok());
    }
    assert_eq!(strings.len(), 5);
    assert_eq!(strings.iter(), inputs);
    assert_eq!(strings.get(2), "wörld");
    assert_eq!(strings.get(3), "日本語");
}

#[test]
fn indexed_packed_strings_entries_hold_offset_and_length() {
    let mut strings = IndexedPackedStrings::new();
    strings.push("ab").unwrap();
    strings.push("cde").unwrap();
    strings.push("").unwrap();
    strings.push("f").unwrap();
    let (data, backing_store) = strings.into_parts();
    assert_eq!(data, vec![2, (2 << 24) + 3, 5 << 24, (5 << 24) + 1]);
    assert_eq!(backing_store, b"abcdef".to_vec());
}

#[test]
fn indexed_packed_strings_clear_and_default() {
    let mut strings = IndexedPackedStrings::default();
    assert_eq!(strings.len(), 0);
    strings.push("abc").unwrap();
    assert_eq!(strings.arena_bytes(), 3);
    strings.clear();
    assert_eq!(strings.len(), 0);
    assert_eq!(strings.arena_bytes(), 0);
    assert!(strings.iter().is_empty());
    strings.push("z").unwrap();
    assert_eq!(strings.iter(), vec!["z"]);
}

#[test]
fn indexed_packed_strings_reject_long_string() {
    let mut strings = IndexedPackedStrings::new();
    strings.push("kept").unwrap();
    let longest = "a".repeat((1 << 24) - 1);
    assert!(strings.push(&longest).is_ok());
    let too_long = "a".repeat(1 << 24);
    let result = strings.push(&too_long);
    assert!(matches!(result, Err(QueryError::FatalError(_))));
    assert_eq!(strings.len(), 2);
    assert_eq!(strings.get(0), "kept");
    assert_eq!(strings.arena_bytes(), 4 + (1 << 24) - 1);
}

#[test]
fn packed_strings_round_trip_at_length_borders() {
    let inputs: Vec<String> = [0usize, 254, 255, 256, 509, 510, 1, 765]
        .iter()
        .map(|len| text_of_len(*len))
        .collect();
    let borrowed: Vec<&str> = inputs.iter().map(|s| s.as_str()).collect();
    let packed = PackedStrings::from_iterator(&borrowed);
    let data = packed.into_vec();
    assert_eq!(unpack_strings(&data), inputs);
}

#[test]
fn packed_strings_length_prefix_bytes() {
    let mut packed = PackedStrings::from_iterator(&[]);
    packed.push("ab");
    packed.push("");
    packed.shrink_to_fit();
    assert_eq!(packed.into_vec(), vec![2, b'a', b'b', 0]);

    let text = text_of_len(255);
    let data = PackedStrings::from_iterator(&[text.as_str()]).into_vec();
    assert_eq!(data.len(), 257);
    assert_eq!(&data[..2], &[255, 0]);
    assert_eq!(&data[2..], text.as_bytes());

    let text = text_of_len(254);
    let data = PackedStrings::from_iterator(&[text.as_str()]).into_vec();
    assert_eq!(data.len(), 255);
    assert_eq!(data[0], 254);

    let text = text_of_len(510);
    let data = PackedStrings::from_iterator(&[text.as_str()]).into_vec();
    assert_eq!(&data[..3], &[255, 255, 0]);
    assert_eq!(data.len(), 513);
}

#[test]
fn packed_bytes_round_trip_at_length_borders() {
    let inputs: Vec<Vec<u8>> = [0usize, 254, 255, 256, 509, 510]
        .iter()
        .map(|len| (0..*len).map(|i| (i % 251) as u8).collect())
        .collect();
    let data = PackedBytes::from_iterator(&inputs).into_vec();
    let mut iter = PackedBytesIterator::from_slice(&data);
    let mut result: Vec<Vec<u8>> = Vec::new();
    while iter.has_more() {
        result.push(iter.next().unwrap().to_vec());
    }
    assert_eq!(result, inputs);
    assert!(iter.next().is_none());
    assert!(!iter.has_more());
}

#[test]
fn packed_bytes_of_nothing() {
    let data = PackedBytes::from_iterator(&[]).into_vec();
    assert!(data.is_empty());
    let mut iter = PackedBytesIterator::from_slice(&data);
    assert!(!iter.has_more());
    assert!(iter.next().is_none());
    let mut strings = StringPackerIterator::from_slice(&data);
    assert!(strings.next().is_none());
}

#[test]
fn packed_strings_keep_multibyte_text() {
    let data = PackedStrings::from_iterator(&["héllo", "日本"]).into_vec();
    assert_eq!(data[0], 6);
    assert_eq!(unpack_strings(&data), vec!["héllo".to_string(), "日本".to_string()]);
}

#[test]
fn packed_data_can_be_checked_before_it_is_read() {
    assert!(PackedBytesIterator::is_valid(&[]));
    assert!(PackedBytesIterator::is_valid(&[0]));
    assert!(PackedBytesIterator::is_valid(&[2, 7, 8, 0, 1, 9]));
    assert!(!PackedBytesIterator::is_valid(&[2, 7]));
    assert!(!PackedBytesIterator::is_valid(&[255]));
    assert!(!PackedBytesIterator::is_valid(&[255, 255]));
    assert!(!PackedBytesIterator::is_valid(&[255, 0, 1]));
    let long = PackedBytes::from_iterator(&[vec![3u8; 600], vec![]]).into_vec();
    assert!(PackedBytesIterator::is_valid(&long));
    assert!(!PackedBytesIterator::is_valid(&long[..long.len() - 2]));

    assert!(StringPackerIterator::is_valid(&[]));
    assert!(StringPackerIterator::is_valid(&[1, b'a', 2, 0xc3, 0xa9]));
    assert!(!StringPackerIterator::is_valid(&[1, 0xff]));
    assert!(!StringPackerIterator::is_valid(&[1, b'a', 1, 0xc3]));
    assert!(!StringPackerIterator::is_valid(&[3, b'a']));
    assert!(PackedBytesIterator::is_valid(&[1, 0xff]));
}
