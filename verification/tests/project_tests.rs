use tagsearch::project::{
    fold_attribute_pairs, project_row, AttrPair, ColumnValue, OutValue, ProjectError,
};
use tagsearch::search::SearchSelect;

fn pair(key: &str, value: &str) -> AttrPair {
    AttrPair { key: key.to_string(), value: value.to_string() }
}

#[test]
fn folding_groups_values_under_one_key() {
    let pairs = vec![pair("color", "red"), pair("color", "blue")];
    let folded = fold_attribute_pairs(&pairs);
    assert_eq!(folded.len(), 1);
    assert_eq!(folded[0].key, "color");
    assert_eq!(folded[0].values, vec!["red".to_string(), "blue".to_string()]);
}

#[test]
fn folding_keeps_first_occurrence_key_order() {
    let pairs = vec![
        pair("b", "1"),
        pair("a", "2"),
        pair("b", "3"),
        pair("c", "4"),
        pair("a", "5"),
    ];
    let folded = fold_attribute_pairs(&pairs);
    let keys: Vec<&str> = folded.iter().map(|e| e.key.as_str()).collect();
    assert_eq!(keys, vec!["b", "a", "c"]);
    assert_eq!(folded[0].values, vec!["1".to_string(), "3".to_string()]);
    assert_eq!(folded[1].values, vec!["2".to_string(), "5".to_string()]);
    assert_eq!(folded[2].values, vec!["4".to_string()]);
}

#[test]
fn folding_no_pairs_yields_no_keys() {
    let folded = fold_attribute_pairs(&vec![]);
    assert!(folded.is_empty());
}

#[test]
fn projection_names_columns_in_submitted_order() {
    let select = vec![SearchSelect::Id, SearchSelect::Active, SearchSelect::Caption];
    let row = vec![
        ColumnValue::Int(9),
        ColumnValue::Bool(true),
        ColumnValue::NullableText(None),
    ];
    let out = project_row(&select, &row).unwrap();
    assert_eq!(out.len(), 3);
    assert_eq!(out[0].name, "id");
    assert_eq!(out[1].name, "active");
    assert_eq!(out[2].name, "caption");
    assert_eq!(out[0].value, OutValue::Int(9));
    assert_eq!(out[1].value, OutValue::Bool(true));
    assert_eq!(out[2].value, OutValue::NullableText(None));
}

#[test]
fn projection_encodes_hash_as_lowercase_hex() {
    let select = vec![SearchSelect::Hash];
    let row = vec![ColumnValue::Bytes(vec![0x00, 0xde, 0xad, 0xff])];
    let out = project_row(&select, &row).unwrap();
    assert_eq!(out[0].value, OutValue::Text("00deadff".to_string()));
}

#[test]
fn projection_folds_attribute_pairs() {
    let select = vec![SearchSelect::Attributes];
    let row = vec![ColumnValue::AttrPairs(vec![pair("color", "red"), pair("color", "blue")])];
    let out = project_row(&select, &row).unwrap();
    match &out[0].value {
        OutValue::AttrMap(entries) => {
            assert_eq!(entries.len(), 1);
            assert_eq!(entries[0].key, "color");
            assert_eq!(entries[0].values, vec!["red".to_string(), "blue".to_string()]);
        },
        other => panic!("unexpected projection: {:?}", other),
    }
}

#[test]
fn projection_passes_tags_and_aggregates_through() {
    let select = vec![SearchSelect::Tags, SearchSelect::Count];
    let row = vec![ColumnValue::IntArray(vec![4, 7, 7]), ColumnValue::Int(12)];
    let out = project_row(&select, &row).unwrap();
    assert_eq!(out[0].name, "tags");
    assert_eq!(out[0].value, OutValue::IntArray(vec![4, 7, 7]));
    assert_eq!(out[1].name, "count");
    assert_eq!(out[1].value, OutValue::Int(12));
}

#[test]
fn wrong_shape_is_rejected() {
    let select = vec![SearchSelect::Id];
    let row = vec![ColumnValue::Bool(true)];
    assert_eq!(project_row(&select, &row).unwrap_err(), ProjectError::ShapeMismatch);
}

#[test]
fn wrong_row_length_is_rejected() {
    let select = vec![SearchSelect::Id, SearchSelect::Hash];
    let row = vec![ColumnValue::Int(1)];
    assert_eq!(project_row(&select, &row).unwrap_err(), ProjectError::ShapeMismatch);
}
