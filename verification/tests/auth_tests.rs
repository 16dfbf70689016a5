use sha2::Digest;
use tagsearch::auth::{LoginKey, UserToken};
use tagsearch::images::{
    embedding_list_sql, embedding_update_sql, image_from_row, image_with_blame_from_row,
    parse_blame_entries, ImageHash,
};
use tagsearch::project::AttrPair;

#[test]
fn login_key_hash_matches_sha256() {
    let key = LoginKey::from_bytes([7u8; 32]);
    let hashed = key.hash();
    let expected = sha2::Sha256::digest([7u8; 32]);
    assert_eq!(hashed.0.to_vec(), expected.to_vec());
    // hashing changes the bytes
    assert_ne!(hashed.0, key.0);
}

#[test]
fn login_key_equality_compares_bytes() {
    let a = LoginKey::from_bytes([1u8; 32]);
    let b = LoginKey::from_bytes([1u8; 32]);
    let mut other_bytes = [1u8; 32];
    other_bytes[31] = 2;
    let c = LoginKey::from_bytes(other_bytes);
    assert!(a == b);
    assert!(!(a == c));
}

#[test]
fn hex_rendering_is_lowercase_two_digits_per_byte() {
    let mut bytes = [0u8; 32];
    bytes[0] = 0x00;
    bytes[1] = 0x0a;
    bytes[2] = 0xff;
    let token = UserToken::from_bytes(bytes);
    let hex = token.to_hex();
    assert_eq!(hex.len(), 64);
    assert!(hex.starts_with("000aff"));
    assert!(hex[6..].chars().all(|c| c == '0'));

    let hash = ImageHash::from_bytes([0xab; 32]);
    assert_eq!(hash.to_hex(), "ab".repeat(32));
}

#[test]
fn hex_parsing_round_trips_and_rejects_bad_text() {
    let mut bytes = [0u8; 32];
    for (i, b) in bytes.iter_mut().enumerate() {
        *b = i as u8;
    }
    let hash = ImageHash::from_bytes(bytes);
    let parsed = ImageHash::from_hex(&hash.to_hex()).unwrap();
    assert_eq!(parsed.0, bytes);

    // uppercase digits decode too
    let upper = hash.to_hex().to_uppercase();
    assert_eq!(ImageHash::from_hex(&upper).unwrap().0, bytes);

    // wrong length, odd length, or a bad digit is rejected
    assert!(ImageHash::from_hex("abcd").is_none());
    assert!(ImageHash::from_hex(&"a".repeat(63)).is_none());
    assert!(ImageHash::from_hex(&"g".repeat(64)).is_none());
    assert!(LoginKey::from_hex(&"0".repeat(64)).is_some());
    assert!(UserToken::from_hex(&"z".repeat(64)).is_none());
}

#[test]
fn image_from_row_folds_attributes() {
    let pairs = vec![
        AttrPair { key: "color".to_string(), value: "red".to_string() },
        AttrPair { key: "color".to_string(), value: "blue".to_string() },
        AttrPair { key: "source".to_string(), value: "scan".to_string() },
    ];
    let image = image_from_row(
        5,
        ImageHash::from_bytes([9u8; 32]),
        true,
        vec![1, 2],
        Some("caption1".to_string()),
        &pairs,
    );
    assert_eq!(image.id, 5);
    assert!(image.active);
    assert_eq!(image.tags, vec![1, 2]);
    assert_eq!(image.caption.as_deref(), Some("caption1"));
    assert_eq!(image.attributes.len(), 2);
    assert_eq!(image.attributes[0].key, "color");
    assert_eq!(image.attributes[0].values, vec!["red".to_string(), "blue".to_string()]);
    assert_eq!(image.attributes[1].key, "source");
    assert_eq!(image.attributes[1].values, vec!["scan".to_string()]);
}

#[test]
fn embedding_queries_accept_only_whitelisted_columns() {
    assert_eq!(
        embedding_update_sql(&"embedding_1".to_string()).unwrap(),
        "UPDATE images_2 SET embedding_1 = $1 WHERE hash = $2 AND active = true"
    );
    assert_eq!(
        embedding_list_sql(&"embedding_1".to_string()).unwrap(),
        "SELECT id, embedding_1 FROM images_2 WHERE id >= $1 ORDER BY id ASC LIMIT $2"
    );
    assert!(embedding_update_sql(&"embedding_2".to_string()).is_none());
    assert!(embedding_list_sql(&"hash; DROP TABLE images_2".to_string()).is_none());
}

#[test]
fn image_with_blame_parses_raw_rows() {
    let pairs = vec![AttrPair { key: "source".to_string(), value: "scan".to_string() }];
    let raw_blame = vec![("12".to_string(), 4i64)];
    let img = image_with_blame_from_row(3, ImageHash::from_bytes([1u8; 32]), true, &pairs, &raw_blame)
        .unwrap();
    assert_eq!(img.id, 3);
    assert_eq!(img.tags_blame, vec![(12, 4)]);
    assert_eq!(img.attributes[0].key, "source");

    let bad_blame = vec![("not-a-number".to_string(), 4i64)];
    assert!(
        image_with_blame_from_row(3, ImageHash::from_bytes([1u8; 32]), true, &pairs, &bad_blame)
            .is_err()
    );
}

#[test]
fn blame_entries_parse_decimal_keys() {
    let raw = vec![("17".to_string(), 3i64), ("250".to_string(), 9i64)];
    let parsed = parse_blame_entries(&raw).unwrap();
    assert_eq!(parsed, vec![(17, 3), (250, 9)]);
}

#[test]
fn blame_entries_reject_malformed_keys() {
    let raw = vec![("17".to_string(), 3i64), ("x1".to_string(), 9i64)];
    assert!(parse_blame_entries(&raw).is_err());
}
