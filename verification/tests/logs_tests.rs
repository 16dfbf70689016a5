use tagsearch::images::ImageHash;
use tagsearch::logs::{build_logs_sql, log_entry_fields, LogAction, LogBindValue};

const BASE: &str = "SELECT logs.id, timestamp, user_id, action, images_2.hash AS image_hash, tag, attribute_key, attribute_value FROM logs LEFT JOIN images_2 ON logs.image_hash = images_2.hash WHERE logs.id >= $1";

#[test]
fn logs_query_without_filters() {
    let (sql, args) = build_logs_sql(None, None, 10, None);
    assert_eq!(sql, format!("{} ORDER BY id ASC", BASE));
    assert_eq!(args, vec![LogBindValue::Int(10)]);
}

#[test]
fn logs_query_with_all_filters_numbers_placeholders_in_order() {
    let hash = ImageHash::from_bytes([0x11; 32]);
    let (sql, args) = build_logs_sql(Some(hash), Some("add_tag".to_string()), 0, Some(50));
    assert_eq!(
        sql,
        format!(
            "{} AND image_hash = $2 AND action = $3 ORDER BY id ASC LIMIT $4",
            BASE
        )
    );
    assert_eq!(
        args,
        vec![
            LogBindValue::Int(0),
            LogBindValue::Bytes(vec![0x11; 32]),
            LogBindValue::Text("add_tag".to_string()),
            LogBindValue::Int(50),
        ]
    );
}

#[test]
fn logs_query_with_action_only_renumbers() {
    let (sql, args) = build_logs_sql(None, Some("caption".to_string()), 7, Some(5));
    assert_eq!(
        sql,
        format!("{} AND action = $2 ORDER BY id ASC LIMIT $3", BASE)
    );
    assert_eq!(
        args,
        vec![
            LogBindValue::Int(7),
            LogBindValue::Text("caption".to_string()),
            LogBindValue::Int(5),
        ]
    );
}

#[test]
fn log_actions_map_to_their_row_fields() {
    let hash = ImageHash::from_bytes([4u8; 32]);

    let (name, h, tag, key, value) = log_entry_fields(LogAction::AddTag("tag1".to_string()));
    assert_eq!(name, "add_tag");
    assert!(h.is_none());
    assert_eq!(tag.as_deref(), Some("tag1"));
    assert!(key.is_none() && value.is_none());

    let (name, h, tag, key, value) = log_entry_fields(LogAction::AddAttribute {
        image_hash: hash,
        key: "attr1".to_string(),
        value: "value_for_attr1".to_string(),
    });
    assert_eq!(name, "add_attribute");
    assert_eq!(h, Some(hash));
    assert!(tag.is_none());
    assert_eq!(key.as_deref(), Some("attr1"));
    assert_eq!(value.as_deref(), Some("value_for_attr1"));

    let (name, h, tag, key, value) =
        log_entry_fields(LogAction::CaptionImage(hash, "caption1".to_string()));
    assert_eq!(name, "caption");
    assert_eq!(h, Some(hash));
    assert!(tag.is_none() && key.is_none());
    assert_eq!(value.as_deref(), Some("caption1"));

    let (name, _, tag, _, _) =
        log_entry_fields(LogAction::RemoveImageTag(hash, "tag2".to_string()));
    assert_eq!(name, "remove_image_tag");
    assert_eq!(tag.as_deref(), Some("tag2"));

    let (name, h, _, _, _) = log_entry_fields(LogAction::RemoveImage(hash));
    assert_eq!(name, "remove_image");
    assert_eq!(h, Some(hash));
}
