use tagsearch::wire::{parse_search_response_images, read_vli, read_wire_string, WireError};

#[test]
fn vli_single_byte_values() {
    assert_eq!(read_vli(&[0x10], 0).unwrap(), (16, 1));
    assert_eq!(read_vli(&[0x00], 0).unwrap(), (0, 1));
    assert_eq!(read_vli(&[0xfc], 0).unwrap(), (0xfc, 1));
}

#[test]
fn vli_extended_values() {
    assert_eq!(read_vli(&[0xfd, 0x01, 0x02], 0).unwrap(), (0x0201, 3));
    assert_eq!(read_vli(&[0xfe, 0x01, 0x00, 0x00, 0x01], 0).unwrap(), (0x0100_0001, 5));
    assert_eq!(
        read_vli(&[0xff, 1, 0, 0, 0, 0, 0, 0, 2], 0).unwrap(),
        (1 + (2u64 << 56), 9)
    );
}

#[test]
fn vli_truncated_buffer_is_rejected() {
    assert_eq!(read_vli(&[], 0).unwrap_err(), WireError::UnexpectedEnd);
    assert_eq!(read_vli(&[0xfd, 0x01], 0).unwrap_err(), WireError::UnexpectedEnd);
    assert_eq!(read_vli(&[0xff, 1, 2, 3], 0).unwrap_err(), WireError::UnexpectedEnd);
}

#[test]
fn wire_string_reads_length_prefixed_utf8() {
    let data = [3, b'a', b'b', b'c', 9];
    let (s, pos) = read_wire_string(&data, 0).unwrap();
    assert_eq!(s, "abc");
    assert_eq!(pos, 4);
}

#[test]
fn wire_string_decodes_multibyte_utf8() {
    let data = [3, 0xc3, 0xa9, b'!'];
    let (s, pos) = read_wire_string(&data, 0).unwrap();
    assert_eq!(s, "\u{e9}!");
    assert_eq!(s.chars().count(), 2);
    assert_eq!(pos, 4);
}

#[test]
fn wire_string_rejects_invalid_utf8() {
    let data = [1, 0xff];
    assert_eq!(read_wire_string(&data, 0).unwrap_err(), WireError::InvalidUtf8);
}

#[test]
fn wire_string_rejects_short_buffer() {
    let data = [5, b'a'];
    assert_eq!(read_wire_string(&data, 0).unwrap_err(), WireError::UnexpectedEnd);
}

fn full_record_buffer() -> Vec<u8> {
    let mut data = vec![0x05, 0x00, 0x00, 0x00];
    data.extend_from_slice(&[0xaa; 32]);
    data.extend_from_slice(&[2, 1, 7, 2, 9]);
    data.extend_from_slice(&[1, 5]);
    data.extend_from_slice(b"color");
    data.push(2);
    data.push(3);
    data.extend_from_slice(b"red");
    data.push(1);
    data.push(4);
    data.extend_from_slice(b"blue");
    data.push(2);
    data
}

#[test]
fn parses_a_full_record() {
    let data = full_record_buffer();
    let images = parse_search_response_images(true, true, true, true, &data).unwrap();
    assert_eq!(images.len(), 1);
    let img = &images[0];
    assert_eq!(img.id, Some(5));
    assert_eq!(img.hash.as_deref(), Some(&[0xaa; 32][..]));
    assert_eq!(img.tags.as_deref(), Some(&[(1, 7), (2, 9)][..]));
    let attrs = img.attributes.as_ref().unwrap();
    assert_eq!(attrs.len(), 1);
    assert_eq!(attrs[0].0, "color");
    assert_eq!(
        attrs[0].1,
        vec![("red".to_string(), 1u64), ("blue".to_string(), 2u64)]
    );
}

#[test]
fn parses_consecutive_id_records() {
    let data = [1, 0, 0, 0, 2, 0, 0, 0];
    let images = parse_search_response_images(true, false, false, false, &data).unwrap();
    assert_eq!(images.len(), 2);
    assert_eq!(images[0].id, Some(1));
    assert_eq!(images[1].id, Some(2));
    assert!(images[0].hash.is_none());
    assert!(images[0].tags.is_none());
    assert!(images[0].attributes.is_none());
}

#[test]
fn empty_buffer_parses_to_no_records() {
    let images = parse_search_response_images(true, true, true, true, &[]).unwrap();
    assert!(images.is_empty());
}

#[test]
fn fieldless_records_cannot_consume_the_buffer() {
    let err = parse_search_response_images(false, false, false, false, &[0]).unwrap_err();
    assert_eq!(err, WireError::NoFields);
}

#[test]
fn truncated_hash_is_rejected() {
    let mut data = vec![0x05, 0x00, 0x00, 0x00];
    data.extend_from_slice(&[0xaa; 10]);
    let err = parse_search_response_images(true, true, false, false, &data).unwrap_err();
    assert_eq!(err, WireError::UnexpectedEnd);
}
