//! The audit-log query builder: turns optional filters into parameterized
//! query text plus bound values, and maps a logged action to the row
//! fields it is recorded with.

use vstd::prelude::*;

verus! {

use crate::images::ImageHash;
use crate::text::{dec_str, append_dec_u64};
use vstd::string::StringExecFns;

/// One audit-log row; the timestamp is seconds since the Unix epoch.
pub struct DbLog {
    pub id: i64,
    pub timestamp_unix: i64,
    pub user_id: i64,
    pub action: String,
    pub image_hash: Option<ImageHash>,
    pub tag: Option<String>,
    pub attribute_key: Option<String>,
    pub attribute_value: Option<String>,
}

/// A value bound to one placeholder of the log query.
#[derive(Clone, Debug, PartialEq, Eq)]
pub enum LogBindValue {
    Int(i64),
    Bytes(Vec<u8>),
    Text(String),
}

/// The mathematical model of a log bind value.
pub enum LogBindVal {
    Int(i64),
    Bytes(Seq<u8>),
    Text(Seq<char>),
}

impl View for LogBindValue {
    type V = LogBindVal;

    open spec fn view(&self) -> LogBindVal {
        match self {
            LogBindValue::Int(n) => LogBindVal::Int(*n),
            LogBindValue::Bytes(b) => LogBindVal::Bytes(b@),
            LogBindValue::Text(t) => LogBindVal::Text(t@),
        }
    }
}

/// The models of a sequence of log bind values.
pub open spec fn log_vals_view(s: Seq<LogBindValue>) -> Seq<LogBindVal> {
    s.map_values(|v: LogBindValue| v@)
}

/// The text of the log query for the given filters: a fixed prefix, one
/// placeholder per present filter, and a fixed ordering.
pub open spec fn logs_query_text(
    has_hash: bool,
    has_action: bool,
    has_limit: bool,
) -> Seq<char> {
    let base =
        "SELECT logs.id, timestamp, user_id, action, images_2.hash AS image_hash, tag, attribute_key, attribute_value FROM logs LEFT JOIN images_2 ON logs.image_hash = images_2.hash WHERE logs.id >= $1"@;
    let with_hash = if has_hash {
        base + " AND image_hash = $2"@
    } else {
        base
    };
    let action_n: nat = if has_hash {
        3
    } else {
        2
    };
    let with_action = if has_action {
        with_hash + " AND action = $"@ + dec_str(action_n)
    } else {
        with_hash
    };
    let ordered = with_action + " ORDER BY id ASC"@;
    let limit_n: nat = action_n + if has_action {
        1nat
    } else {
        0nat
    };
    if has_limit {
        ordered + " LIMIT $"@ + dec_str(limit_n)
    } else {
        ordered
    }
}

/// The bound values of the log query, in placeholder order.
pub open spec fn logs_query_args(
    image_hash: Option<ImageHash>,
    action: Option<String>,
    min_id: i64,
    limit: Option<i64>,
) -> Seq<LogBindVal> {
    let base = seq![LogBindVal::Int(min_id)];
    let with_hash = match image_hash {
        Some(h) => base.push(LogBindVal::Bytes(h.0@)),
        None => base,
    };
    let with_action = match action {
        Some(a) => with_hash.push(LogBindVal::Text(a@)),
        None => with_hash,
    };
    match limit {
        Some(l) => with_action.push(LogBindVal::Int(l)),
        None => with_action,
    }
}

/// Builds the parameterized log query for the given filters: rows from
/// `min_id` on, optionally restricted to one image hash and one action,
/// in ascending id order, optionally limited. Every filter value is bound
/// positionally, never written into the text.
pub fn build_logs_sql(
    image_hash: Option<ImageHash>,
    action: Option<String>,
    min_id: i64,
    limit: Option<i64>,
) -> (r: (String, Vec<LogBindValue>))
    ensures
        r.0@ == logs_query_text(image_hash is Some, action is Some, limit is Some),
        log_vals_view(r.1@) == logs_query_args(image_hash, action, min_id, limit),
{
    let ghost expect_args = logs_query_args(image_hash, action, min_id, limit);
    let mut query = String::from_str(
        "SELECT logs.id, timestamp, user_id, action, images_2.hash AS image_hash, tag, attribute_key, attribute_value FROM logs LEFT JOIN images_2 ON logs.image_hash = images_2.hash WHERE logs.id >= $1",
    );
    let mut args: Vec<LogBindValue> = Vec::new();
    args.push(LogBindValue::Int(min_id));

    match image_hash {
        Some(h) => {
            query.append(" AND image_hash = $2");
            let mut bytes: Vec<u8> = Vec::new();
            let mut i: usize = 0;
            while i < 32
                invariant
                    i <= 32,
                    bytes@ =~= h.0@.subrange(0, i as int),
                decreases 32 - i,
            {
                bytes.push(h.0[i]);
                proof {
                    assert(bytes@ =~= h.0@.subrange(0, i as int + 1));
                }
                i = i + 1;
            }
            proof {
                assert(bytes@ =~= h.0@);
            }
            args.push(LogBindValue::Bytes(bytes));
        },
        None => {},
    }

    match action {
        Some(a) => {
            query.append(" AND action = $");
            append_dec_u64(&mut query, (args.len() + 1) as u64);
            args.push(LogBindValue::Text(a));
        },
        None => {},
    }

    query.append(" ORDER BY id ASC");

    match limit {
        Some(l) => {
            query.append(" LIMIT $");
            append_dec_u64(&mut query, (args.len() + 1) as u64);
            args.push(LogBindValue::Int(l));
        },
        None => {},
    }

    proof {
        assert(query@ =~= logs_query_text(image_hash is Some, action is Some, limit is Some));
        assert(log_vals_view(args@) =~= expect_args);
    }
    (query, args)
}

/// One action recorded in the audit log.
pub enum LogAction {
    AddTag(String),
    RemoveTag(String),
    AddImage(ImageHash),
    RemoveImage(ImageHash),
    AddAttribute { image_hash: ImageHash, key: String, value: String },
    RemoveAttribute { image_hash: ImageHash, key: String, value: String },
    AddImageTag(ImageHash, String),
    RemoveImageTag(ImageHash, String),
    CaptionImage(ImageHash, String),
}

/// The action-name column value of a logged action.
pub open spec fn action_name(action: LogAction) -> Seq<char> {
    match action {
        LogAction::AddTag(_) => "add_tag"@,
        LogAction::RemoveTag(_) => "remove_tag"@,
        LogAction::AddImage(_) => "add_image"@,
        LogAction::RemoveImage(_) => "remove_image"@,
        LogAction::AddAttribute { .. } => "add_attribute"@,
        LogAction::RemoveAttribute { .. } => "remove_attribute"@,
        LogAction::AddImageTag(..) => "add_image_tag"@,
        LogAction::RemoveImageTag(..) => "remove_image_tag"@,
        LogAction::CaptionImage(..) => "caption"@,
    }
}

/// The row fields a logged action is recorded with: the action name and
/// the image hash, tag, attribute key and attribute value, each present
/// exactly where the action carries it.
pub fn log_entry_fields(action: LogAction) -> (r: (
    String,
    Option<ImageHash>,
    Option<String>,
    Option<String>,
    Option<String>,
))
    ensures
        r.0@ == action_name(action),
        match action {
            LogAction::AddTag(tag) => r.1 is None && r.2 == Some(tag) && r.3 is None && r.4 is None,
            LogAction::RemoveTag(tag) => r.1 is None && r.2 == Some(tag) && r.3 is None && r.4 is None,
            LogAction::AddImage(h) => r.1 == Some(h) && r.2 is None && r.3 is None && r.4 is None,
            LogAction::RemoveImage(h) => r.1 == Some(h) && r.2 is None && r.3 is None
                && r.4 is None,
            LogAction::AddAttribute { image_hash, key, value } => r.1 == Some(image_hash)
                && r.2 is None && r.3 == Some(key) && r.4 == Some(value),
            LogAction::RemoveAttribute { image_hash, key, value } => r.1 == Some(image_hash)
                && r.2 is None && r.3 == Some(key) && r.4 == Some(value),
            LogAction::AddImageTag(h, tag) => r.1 == Some(h) && r.2 == Some(tag) && r.3 is None
                && r.4 is None,
            LogAction::RemoveImageTag(h, tag) => r.1 == Some(h) && r.2 == Some(tag) && r.3 is None
                && r.4 is None,
            LogAction::CaptionImage(h, caption) => r.1 == Some(h) && r.2 is None && r.3 is None
                && r.4 == Some(caption),
        },
{
    match action {
        LogAction::AddTag(tag) => (String::from_str("add_tag"), None, Some(tag), None, None),
        LogAction::RemoveTag(tag) => (String::from_str("remove_tag"), None, Some(tag), None, None),
        LogAction::AddImage(h) => (String::from_str("add_image"), Some(h), None, None, None),
        LogAction::RemoveImage(h) => (String::from_str("remove_image"), Some(h), None, None, None),
        LogAction::AddAttribute { image_hash, key, value } => (
            String::from_str("add_attribute"),
            Some(image_hash),
            None,
            Some(key),
            Some(value),
        ),
        LogAction::RemoveAttribute { image_hash, key, value } => (
            String::from_str("remove_attribute"),
            Some(image_hash),
            None,
            Some(key),
            Some(value),
        ),
        LogAction::AddImageTag(h, tag) => (
            String::from_str("add_image_tag"),
            Some(h),
            Some(tag),
            None,
            None,
        ),
        LogAction::RemoveImageTag(h, tag) => (
            String::from_str("remove_image_tag"),
            Some(h),
            Some(tag),
            None,
            None,
        ),
        LogAction::CaptionImage(h, caption) => (
            String::from_str("caption"),
            Some(h),
            None,
            None,
            Some(caption),
        ),
    }
}

} // verus!
