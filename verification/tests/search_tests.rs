use tagsearch::search::{
    BoundValue, CompileError, OrderBy, SearchOperator, SearchQuery, SearchSelect,
};

fn query(
    select: Vec<SearchSelect>,
    order_by: Option<OrderBy>,
    limit: Option<i64>,
    operator: Option<SearchOperator>,
) -> SearchQuery {
    SearchQuery { select, order_by, limit, operator }
}

#[test]
fn empty_select_is_rejected() {
    let q = query(vec![], None, None, None);
    assert_eq!(q.build_sql().unwrap_err(), CompileError::EmptySelect);
}

#[test]
fn aggregate_mixed_with_row_column_is_rejected() {
    let q = query(vec![SearchSelect::Count, SearchSelect::Id], None, None, None);
    assert_eq!(q.build_sql().unwrap_err(), CompileError::AggregateMix);
}

#[test]
fn aggregates_together_are_accepted() {
    let q = query(vec![SearchSelect::Count, SearchSelect::MinId], None, None, None);
    let (sql, args) = q.build_sql().unwrap();
    assert_eq!(sql, "SELECT count(*), min(i.id) FROM images_2 i");
    assert!(args.is_empty());
}

#[test]
fn select_columns_appear_in_submitted_order() {
    let q = query(
        vec![SearchSelect::Hash, SearchSelect::Id, SearchSelect::Active],
        None,
        None,
        None,
    );
    let (sql, _) = q.build_sql().unwrap();
    assert_eq!(sql, "SELECT i.hash, i.id, i.active FROM images_2 i");
}

#[test]
fn tag_operator_binds_one_positional_value() {
    let q = query(vec![SearchSelect::Id], None, None, Some(SearchOperator::Tag(5)));
    let (sql, args) = q.build_sql().unwrap();
    assert_eq!(sql, "SELECT i.id FROM images_2 i WHERE  $1 = ANY(tags)");
    assert_eq!(args, vec![BoundValue::Int(5)]);
}

#[test]
fn and_numbers_placeholders_left_to_right() {
    let op = SearchOperator::And(Box::new((SearchOperator::Tag(1), SearchOperator::Tag(2))));
    let q = query(vec![SearchSelect::Id], None, None, Some(op));
    let (sql, args) = q.build_sql().unwrap();
    assert_eq!(
        sql,
        "SELECT i.id FROM images_2 i WHERE  ( $1 = ANY(tags)) AND ( $2 = ANY(tags))"
    );
    assert_eq!(args, vec![BoundValue::Int(1), BoundValue::Int(2)]);
}

#[test]
fn or_and_not_wrap_children_in_parentheses() {
    let op = SearchOperator::Or(Box::new((
        SearchOperator::Not(Box::new(SearchOperator::Tag(3))),
        SearchOperator::MinId(10),
    )));
    let q = query(vec![SearchSelect::Id], None, None, Some(op));
    let (sql, args) = q.build_sql().unwrap();
    assert_eq!(
        sql,
        "SELECT i.id FROM images_2 i WHERE  ( NOT ( $1 = ANY(tags))) OR ( i.id >= $2)"
    );
    assert_eq!(args, vec![BoundValue::Int(3), BoundValue::Int(10)]);
}

#[test]
fn min_and_max_id_compile_to_inequalities() {
    let op = SearchOperator::And(Box::new((SearchOperator::MinId(2), SearchOperator::MaxId(8))));
    let q = query(vec![SearchSelect::Id], None, None, Some(op));
    let (sql, args) = q.build_sql().unwrap();
    assert_eq!(sql, "SELECT i.id FROM images_2 i WHERE  ( i.id >= $1) AND ( i.id <= $2)");
    assert_eq!(args, vec![BoundValue::Int(2), BoundValue::Int(8)]);
}

#[test]
fn attribute_id_parses_the_literal() {
    let op = SearchOperator::Attribute("id".to_string(), Some("42".to_string()));
    let q = query(vec![SearchSelect::Id], None, None, Some(op));
    let (sql, args) = q.build_sql().unwrap();
    assert_eq!(sql, "SELECT i.id FROM images_2 i WHERE  i.id = $1");
    assert_eq!(args, vec![BoundValue::Int(42)]);
}

#[test]
fn attribute_id_with_unparseable_literal_is_rejected() {
    let op = SearchOperator::Attribute("id".to_string(), Some("forty-two".to_string()));
    let q = query(vec![SearchSelect::Id], None, None, Some(op));
    assert_eq!(q.build_sql().unwrap_err(), CompileError::InvalidLiteral);
}

#[test]
fn attribute_id_with_overflowing_literal_is_rejected() {
    let op = SearchOperator::Attribute("id".to_string(), Some("9223372036854775808".to_string()));
    let q = query(vec![SearchSelect::Id], None, None, Some(op));
    assert_eq!(q.build_sql().unwrap_err(), CompileError::InvalidLiteral);

    let op = SearchOperator::Attribute("id".to_string(), Some("9223372036854775807".to_string()));
    let q = query(vec![SearchSelect::Id], None, None, Some(op));
    let (_, args) = q.build_sql().unwrap();
    assert_eq!(args, vec![BoundValue::Int(i64::MAX)]);
}

#[test]
fn attribute_hash_binds_hex_text() {
    let op = SearchOperator::Attribute("hash".to_string(), Some("abcd".to_string()));
    let q = query(vec![SearchSelect::Id], None, None, Some(op));
    let (sql, args) = q.build_sql().unwrap();
    assert_eq!(sql, "SELECT i.id FROM images_2 i WHERE  i.hash = decode($1, 'hex')");
    assert_eq!(args, vec![BoundValue::Text("abcd".to_string())]);
}

#[test]
fn attribute_caption_equality_and_null() {
    let op = SearchOperator::Attribute("caption".to_string(), Some("hello".to_string()));
    let q = query(vec![SearchSelect::Id], None, None, Some(op));
    let (sql, args) = q.build_sql().unwrap();
    assert_eq!(sql, "SELECT i.id FROM images_2 i WHERE  i.caption = $1");
    assert_eq!(args, vec![BoundValue::Text("hello".to_string())]);

    let op = SearchOperator::Attribute("caption".to_string(), None);
    let q = query(vec![SearchSelect::Id], None, None, Some(op));
    let (sql, args) = q.build_sql().unwrap();
    assert_eq!(sql, "SELECT i.id FROM images_2 i WHERE  i.caption IS NULL");
    assert!(args.is_empty());
}

#[test]
fn attribute_wildcard_forces_the_join() {
    let op = SearchOperator::Attribute("color".to_string(), Some("*".to_string()));
    let q = query(vec![SearchSelect::Id], None, None, Some(op));
    let (sql, args) = q.build_sql().unwrap();
    assert_eq!(
        sql,
        "SELECT i.id FROM images_2 i LEFT JOIN image_attributes a ON i.id = a.image_id WHERE  $1 = a.key"
    );
    assert_eq!(args, vec![BoundValue::Text("color".to_string())]);
}

#[test]
fn attribute_general_case_compares_digest_column() {
    let op = SearchOperator::Attribute("color".to_string(), Some("red".to_string()));
    let q = query(vec![SearchSelect::Id], None, None, Some(op));
    let (sql, args) = q.build_sql().unwrap();
    assert_eq!(
        sql,
        "SELECT i.id FROM images_2 i LEFT JOIN image_attributes a ON i.id = a.image_id WHERE  $1 = a.key AND decode(md5($2),'hex') = a.value_md5"
    );
    assert_eq!(
        args,
        vec![BoundValue::Text("color".to_string()), BoundValue::Text("red".to_string())]
    );
}

#[test]
fn attribute_other_key_without_value_tests_existence() {
    let op = SearchOperator::Attribute("color".to_string(), None);
    let q = query(vec![SearchSelect::Id], None, None, Some(op));
    let (sql, args) = q.build_sql().unwrap();
    assert_eq!(
        sql,
        "SELECT i.id FROM images_2 i LEFT JOIN image_attributes a ON i.id = a.image_id WHERE  $1 = a.key"
    );
    assert_eq!(args, vec![BoundValue::Text("color".to_string())]);
}

#[test]
fn selecting_attributes_adds_join_and_group_by() {
    let q = query(vec![SearchSelect::Id, SearchSelect::Attributes], None, None, None);
    let (sql, _) = q.build_sql().unwrap();
    assert_eq!(
        sql,
        "SELECT i.id, json_agg(json_build_object('key', a.key, 'value', a.value)) FILTER (WHERE a.key IS NOT NULL AND a.value IS NOT NULL) AS attributes FROM images_2 i LEFT JOIN image_attributes a ON i.id = a.image_id GROUP BY i.id"
    );
}

#[test]
fn order_by_and_limit_are_appended() {
    let q = query(vec![SearchSelect::Id], Some(OrderBy::Hash), Some(12345), None);
    let (sql, _) = q.build_sql().unwrap();
    assert_eq!(sql, "SELECT i.id FROM images_2 i ORDER BY i.hash LIMIT 12345");

    let q = query(vec![SearchSelect::Id], Some(OrderBy::Id), Some(0), None);
    let (sql, _) = q.build_sql().unwrap();
    assert_eq!(sql, "SELECT i.id FROM images_2 i ORDER BY i.id LIMIT 0");
}

#[test]
fn negative_limit_is_rejected() {
    let q = query(vec![SearchSelect::Id], None, Some(-1), None);
    assert_eq!(q.build_sql().unwrap_err(), CompileError::NegativeLimit);
}

fn nested_not(depth: usize) -> SearchOperator {
    let mut op = SearchOperator::Tag(1);
    for _ in 0..depth {
        op = SearchOperator::Not(Box::new(op));
    }
    op
}

#[test]
fn nesting_up_to_five_levels_compiles() {
    let q = query(vec![SearchSelect::Id], None, None, Some(nested_not(5)));
    assert!(q.build_sql().is_ok());
}

#[test]
fn nesting_past_five_levels_is_rejected() {
    let q = query(vec![SearchSelect::Id], None, None, Some(nested_not(6)));
    assert_eq!(q.build_sql().unwrap_err(), CompileError::DepthExceeded);
}

#[test]
fn deep_branch_anywhere_is_rejected() {
    let op = SearchOperator::And(Box::new((SearchOperator::Tag(1), nested_not(5))));
    let q = query(vec![SearchSelect::Id], None, None, Some(op));
    assert_eq!(q.build_sql().unwrap_err(), CompileError::DepthExceeded);
}

#[test]
fn compiling_twice_is_deterministic() {
    let make = || {
        query(
            vec![SearchSelect::Id, SearchSelect::Hash],
            Some(OrderBy::Id),
            Some(7),
            Some(SearchOperator::And(Box::new((
                SearchOperator::Tag(4),
                SearchOperator::Attribute("color".to_string(), Some("red".to_string())),
            )))),
        )
    };
    let (sql1, args1) = make().build_sql().unwrap();
    let (sql2, args2) = make().build_sql().unwrap();
    assert_eq!(sql1, sql2);
    assert_eq!(args1, args2);
}

#[test]
fn column_names_match_their_json_names() {
    assert_eq!(SearchSelect::MinId.to_json_name(), "min_id");
    assert_eq!(SearchSelect::MaxId.to_json_name(), "max_id");
    assert_eq!(SearchSelect::Count.to_json_name(), "count");
    assert_eq!(SearchSelect::Id.to_string(), "i.id");
    assert_eq!(SearchSelect::Count.to_string(), "count(*)");
}
