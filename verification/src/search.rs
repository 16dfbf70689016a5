//! The search-query compiler: turns a select-column list, ordering, limit and
//! an optional boolean filter expression into parameterized query text plus
//! an ordered list of bound values.
//!
//! Every user-controlled literal is emitted strictly as a positional bound
//! value; the only text interpolated into the query is the fixed column
//! expressions and the already-validated non-negative limit.

use vstd::prelude::*;

verus! {

use crate::text::{dec_str, parse_i64_spec, parse_i64, append_dec_u64};
use vstd::string::StringExecFns;

/// Maximum nesting depth of a filter expression.
pub const MAX_QUERY_DEPTH: u32 = 5;

/// Row ordering of a search result.
#[derive(Clone, Copy, Debug, PartialEq, Eq, Structural)]
pub enum OrderBy {
    Id,
    Hash,
}

/// The fixed set of selectable output columns.
#[derive(Clone, Copy, Debug, PartialEq, Eq, Structural)]
pub enum SearchSelect {
    Id,
    Hash,
    Active,
    Tags,
    Caption,
    Attributes,
    Count,
    MinId,
    MaxId,
}

/// A recursive boolean filter expression over the image collection.
///
/// An attribute predicate with a value matches that value (with the keys
/// `id`, `hash` and `caption` compiled against their dedicated columns, and
/// the value `*` matching any value of the key). One without a value tests,
/// for `caption`, that the caption is absent, and for any other key, that
/// the key exists with some value.
pub enum SearchOperator {
    Not(Box<SearchOperator>),
    And(Box<(SearchOperator, SearchOperator)>),
    Or(Box<(SearchOperator, SearchOperator)>),
    Tag(i64),
    Attribute(String, Option<String>),
    MinId(i64),
    MaxId(i64),
}

/// A search request: select columns, optional ordering, optional limit and
/// an optional filter expression.
pub struct SearchQuery {
    pub select: Vec<SearchSelect>,
    pub order_by: Option<OrderBy>,
    pub limit: Option<i64>,
    pub operator: Option<SearchOperator>,
}

/// A value bound to one positional placeholder of the compiled query.
#[derive(Clone, Debug, PartialEq, Eq)]
pub enum BoundValue {
    Bool(bool),
    Int(i64),
    Text(String),
}

/// The mathematical model of a bound value: text is a character sequence.
pub enum BoundVal {
    Bool(bool),
    Int(i64),
    Text(Seq<char>),
}

impl View for BoundValue {
    type V = BoundVal;

    open spec fn view(&self) -> BoundVal {
        match self {
            BoundValue::Bool(b) => BoundVal::Bool(*b),
            BoundValue::Int(n) => BoundVal::Int(*n),
            BoundValue::Text(s) => BoundVal::Text(s@),
        }
    }
}

/// The models of a sequence of bound values.
pub open spec fn vals_view(s: Seq<BoundValue>) -> Seq<BoundVal> {
    s.map_values(|v: BoundValue| v@)
}

/// A classified compilation failure; compilation is all-or-nothing and a
/// failed compile produces no query text.
#[derive(Clone, Copy, Debug, PartialEq, Eq, Structural)]
pub enum CompileError {
    /// The select list is empty.
    EmptySelect,
    /// The select list mixes aggregate and row columns.
    AggregateMix,
    /// The filter expression is nested deeper than `MAX_QUERY_DEPTH` levels.
    DepthExceeded,
    /// An attribute predicate on a typed column holds a literal that does
    /// not parse as the required type.
    InvalidLiteral,
    /// The limit is negative.
    NegativeLimit,
}

impl SearchSelect {
    /// The fixed column or aggregate expression this column selects.
    pub open spec fn col_sql(self) -> Seq<char> {
        match self {
            SearchSelect::Id => "i.id"@,
            SearchSelect::Hash => "i.hash"@,
            SearchSelect::Active => "i.active"@,
            SearchSelect::Tags => "i.tags"@,
            SearchSelect::Caption => "i.caption"@,
            SearchSelect::Attributes => "json_agg(json_build_object('key', a.key, 'value', a.value)) FILTER (WHERE a.key IS NOT NULL AND a.value IS NOT NULL) AS attributes"@,
            SearchSelect::Count => "count(*)"@,
            SearchSelect::MinId => "min(i.id)"@,
            SearchSelect::MaxId => "max(i.id)"@,
        }
    }

    /// The name of this column in an output mapping.
    pub open spec fn spec_json_name(self) -> Seq<char> {
        match self {
            SearchSelect::Id => "id"@,
            SearchSelect::Hash => "hash"@,
            SearchSelect::Active => "active"@,
            SearchSelect::Tags => "tags"@,
            SearchSelect::Caption => "caption"@,
            SearchSelect::Attributes => "attributes"@,
            SearchSelect::Count => "count"@,
            SearchSelect::MinId => "min_id"@,
            SearchSelect::MaxId => "max_id"@,
        }
    }

    /// An aggregate column summarizes many records rather than one.
    pub open spec fn is_aggregate(self) -> bool {
        self == SearchSelect::Count || self == SearchSelect::MinId || self == SearchSelect::MaxId
    }

    /// The fixed column or aggregate expression against the image table.
    pub fn to_string(&self) -> (r: &'static str)
        ensures
            r@ == self.col_sql(),
    {
        match self {
            SearchSelect::Id => "i.id",
            SearchSelect::Hash => "i.hash",
            SearchSelect::Active => "i.active",
            SearchSelect::Tags => "i.tags",
            SearchSelect::Caption => "i.caption",
            SearchSelect::Attributes => "json_agg(json_build_object('key', a.key, 'value', a.value)) FILTER (WHERE a.key IS NOT NULL AND a.value IS NOT NULL) AS attributes",
            SearchSelect::Count => "count(*)",
            SearchSelect::MinId => "min(i.id)",
            SearchSelect::MaxId => "max(i.id)",
        }
    }

    /// The name under which this column appears in an output mapping.
    pub fn to_json_name(&self) -> (r: &'static str)
        ensures
            r@ == self.spec_json_name(),
    {
        match self {
            SearchSelect::Id => "id",
            SearchSelect::Hash => "hash",
            SearchSelect::Active => "active",
            SearchSelect::Tags => "tags",
            SearchSelect::Caption => "caption",
            SearchSelect::Attributes => "attributes",
            SearchSelect::Count => "count",
            SearchSelect::MinId => "min_id",
            SearchSelect::MaxId => "max_id",
        }
    }
}

/// The ordered bound values a filter expression emits.
pub open spec fn op_args(op: SearchOperator) -> Seq<BoundVal>
    decreases op,
{
    match op {
        SearchOperator::Not(o) => op_args(*o),
        SearchOperator::And(p) => op_args(p.0) + op_args(p.1),
        SearchOperator::Or(p) => op_args(p.0) + op_args(p.1),
        SearchOperator::Tag(t) => seq![BoundVal::Int(t)],
        SearchOperator::Attribute(key, valopt) => match valopt {
            Some(v) => {
                if key@ == "id"@ {
                    match parse_i64_spec(v@) {
                        Some(n) => seq![BoundVal::Int(n)],
                        None => seq![],
                    }
                } else if key@ == "hash"@ || key@ == "caption"@ {
                    seq![BoundVal::Text(v@)]
                } else if v@ == "*"@ {
                    seq![BoundVal::Text(key@)]
                } else {
                    seq![BoundVal::Text(key@), BoundVal::Text(v@)]
                }
            },
            None => {
                if key@ == "caption"@ {
                    seq![]
                } else {
                    seq![BoundVal::Text(key@)]
                }
            },
        },
        SearchOperator::MinId(n) => seq![BoundVal::Int(n)],
        SearchOperator::MaxId(n) => seq![BoundVal::Int(n)],
    }
}

/// The query text a filter expression emits, given the number of bound
/// values already emitted before it (placeholders are numbered from 1).
pub open spec fn op_text(op: SearchOperator, base: nat) -> Seq<char>
    decreases op,
{
    match op {
        SearchOperator::Not(o) => " NOT ("@ + op_text(*o, base) + ")"@,
        SearchOperator::And(p) => " ("@ + op_text(p.0, base) + ") AND ("@ + op_text(
            p.1,
            base + op_args(p.0).len(),
        ) + ")"@,
        SearchOperator::Or(p) => " ("@ + op_text(p.0, base) + ") OR ("@ + op_text(
            p.1,
            base + op_args(p.0).len(),
        ) + ")"@,
        SearchOperator::Tag(_) => " $"@ + dec_str(base + 1) + " = ANY(tags)"@,
        SearchOperator::Attribute(key, valopt) => match valopt {
            Some(v) => {
                if key@ == "id"@ {
                    " i.id = $"@ + dec_str(base + 1)
                } else if key@ == "hash"@ {
                    " i.hash = decode($"@ + dec_str(base + 1) + ", 'hex')"@
                } else if key@ == "caption"@ {
                    " i.caption = $"@ + dec_str(base + 1)
                } else if v@ == "*"@ {
                    " $"@ + dec_str(base + 1) + " = a.key"@
                } else {
                    " $"@ + dec_str(base + 1) + " = a.key AND decode(md5($"@ + dec_str(base + 2)
                        + "),'hex') = a.value_md5"@
                }
            },
            None => {
                if key@ == "caption"@ {
                    " i.caption IS NULL"@
                } else {
                    " $"@ + dec_str(base + 1) + " = a.key"@
                }
            },
        },
        SearchOperator::MinId(_) => " i.id >= $"@ + dec_str(base + 1),
        SearchOperator::MaxId(_) => " i.id <= $"@ + dec_str(base + 1),
    }
}

/// Whether a filter expression forces the join against the attribute table.
pub open spec fn op_needs_attrs(op: SearchOperator) -> bool
    decreases op,
{
    match op {
        SearchOperator::Not(o) => op_needs_attrs(*o),
        SearchOperator::And(p) => op_needs_attrs(p.0) || op_needs_attrs(p.1),
        SearchOperator::Or(p) => op_needs_attrs(p.0) || op_needs_attrs(p.1),
        SearchOperator::Attribute(key, valopt) => match valopt {
            Some(_) => !(key@ == "id"@ || key@ == "hash"@ || key@ == "caption"@),
            None => key@ != "caption"@,
        },
        _ => false,
    }
}

/// The failure a filter expression compiles to, if any: the first error met
/// in traversal order, with the depth checked at each node before its
/// children are visited.
pub open spec fn op_err(op: SearchOperator, depth: nat) -> Option<CompileError>
    decreases op,
{
    if depth > MAX_QUERY_DEPTH as nat {
        Some(CompileError::DepthExceeded)
    } else {
        match op {
            SearchOperator::Not(o) => op_err(*o, depth + 1),
            SearchOperator::And(p) => if op_err(p.0, depth + 1) is Some {
                op_err(p.0, depth + 1)
            } else {
                op_err(p.1, depth + 1)
            },
            SearchOperator::Or(p) => if op_err(p.0, depth + 1) is Some {
                op_err(p.0, depth + 1)
            } else {
                op_err(p.1, depth + 1)
            },
            SearchOperator::Attribute(key, valopt) => match valopt {
                Some(v) => {
                    if key@ == "id"@ && parse_i64_spec(v@) is None {
                        Some(CompileError::InvalidLiteral)
                    } else {
                        None
                    }
                },
                None => None,
            },
            _ => None,
        }
    }
}

/// Compares a string with a fixed literal.
pub(crate) fn string_is(s: &String, lit: &str) -> (r: bool)
    ensures
        r == (s@ == lit@),
{
    let other = String::from_str(lit);
    *s == other
}

impl SearchOperator {
    /// Appends this expression's predicate text to `query` and its bound
    /// values to `arguments`, numbering placeholders after those already
    /// emitted; fails past `MAX_QUERY_DEPTH` levels of nesting or on an
    /// unparseable typed literal, and then leaves no usable output.
    fn write_sql(
        &self,
        query: &mut String,
        arguments: &mut Vec<BoundValue>,
        depth: u32,
        needs_attributes: &mut bool,
    ) -> (r: Result<(), CompileError>)
        requires
            depth <= MAX_QUERY_DEPTH + 1,
        ensures
            match r {
                Ok(()) => op_err(*self, depth as nat) is None && final(query)@ == old(query)@
                    + op_text(*self, old(arguments)@.len() as nat) && vals_view(final(arguments)@)
                    == vals_view(old(arguments)@) + op_args(*self) && *final(needs_attributes) == (
                *old(needs_attributes) || op_needs_attrs(*self)),
                Err(e) => op_err(*self, depth as nat) == Some(e),
            },
        decreases *self,
    {
        if depth > MAX_QUERY_DEPTH {
            return Err(CompileError::DepthExceeded);
        }
        match self {
            SearchOperator::Not(op) => {
                query.append(" NOT (");
                match op.write_sql(query, arguments, depth + 1, needs_attributes) {
                    Ok(()) => {},
                    Err(e) => {
                        return Err(e);
                    },
                }
                query.append(")");
                proof {
                    assert(final(query)@ =~= old(query)@ + op_text(
                        *self,
                        old(arguments)@.len() as nat,
                    ));
                }
            },
            SearchOperator::And(p) => {
                query.append(" (");
                match p.0.write_sql(query, arguments, depth + 1, needs_attributes) {
                    Ok(()) => {},
                    Err(e) => {
                        return Err(e);
                    },
                }
                query.append(") AND (");
                match p.1.write_sql(query, arguments, depth + 1, needs_attributes) {
                    Ok(()) => {},
                    Err(e) => {
                        return Err(e);
                    },
                }
                query.append(")");
                proof {
                    assert(vals_view(arguments@).len() == arguments@.len());
                    assert(final(query)@ =~= old(query)@ + op_text(
                        *self,
                        old(arguments)@.len() as nat,
                    ));
                    assert(vals_view(final(arguments)@) =~= vals_view(old(arguments)@) + op_args(
                        *self,
                    ));
                }
            },
            SearchOperator::Or(p) => {
                query.append(" (");
                match p.0.write_sql(query, arguments, depth + 1, needs_attributes) {
                    Ok(()) => {},
                    Err(e) => {
                        return Err(e);
                    },
                }
                query.append(") OR (");
                match p.1.write_sql(query, arguments, depth + 1, needs_attributes) {
                    Ok(()) => {},
                    Err(e) => {
                        return Err(e);
                    },
                }
                query.append(")");
                proof {
                    assert(final(query)@ =~= old(query)@ + op_text(
                        *self,
                        old(arguments)@.len() as nat,
                    ));
                    assert(vals_view(final(arguments)@) =~= vals_view(old(arguments)@) + op_args(
                        *self,
                    ));
                }
            },
            SearchOperator::Tag(tag_id) => {
                arguments.push(BoundValue::Int(*tag_id));
                query.append(" $");
                append_dec_u64(query, arguments.len() as u64);
                query.append(" = ANY(tags)");
                proof {
                    assert(final(query)@ =~= old(query)@ + op_text(
                        *self,
                        old(arguments)@.len() as nat,
                    ));
                    assert(vals_view(final(arguments)@) =~= vals_view(old(arguments)@) + op_args(
                        *self,
                    ));
                }
            },
            SearchOperator::Attribute(key, value) => {
                match value {
                    Some(v) => {
                        if string_is(key, "id") {
                            match parse_i64(v.as_str()) {
                                Some(n) => {
                                    arguments.push(BoundValue::Int(n));
                                    query.append(" i.id = $");
                                    append_dec_u64(query, arguments.len() as u64);
                                },
                                None => {
                                    return Err(CompileError::InvalidLiteral);
                                },
                            }
                        } else if string_is(key, "hash") {
                            arguments.push(BoundValue::Text(v.clone()));
                            query.append(" i.hash = decode($");
                            append_dec_u64(query, arguments.len() as u64);
                            query.append(", 'hex')");
                        } else if string_is(key, "caption") {
                            arguments.push(BoundValue::Text(v.clone()));
                            query.append(" i.caption = $");
                            append_dec_u64(query, arguments.len() as u64);
                        } else if string_is(v, "*") {
                            arguments.push(BoundValue::Text(key.clone()));
                            query.append(" $");
                            append_dec_u64(query, arguments.len() as u64);
                            query.append(" = a.key");
                            *needs_attributes = true;
                        } else {
                            arguments.push(BoundValue::Text(key.clone()));
                            arguments.push(BoundValue::Text(v.clone()));
                            query.append(" $");
                            append_dec_u64(query, (arguments.len() - 1) as u64);
                            query.append(" = a.key AND decode(md5($");
                            append_dec_u64(query, arguments.len() as u64);
                            query.append("),'hex') = a.value_md5");
                            *needs_attributes = true;
                        }
                    },
                    None => {
                        if string_is(key, "caption") {
                            query.append(" i.caption IS NULL");
                        } else {
                            arguments.push(BoundValue::Text(key.clone()));
                            query.append(" $");
                            append_dec_u64(query, arguments.len() as u64);
                            query.append(" = a.key");
                            *needs_attributes = true;
                        }
                    },
                }
                proof {
                    assert(final(query)@ =~= old(query)@ + op_text(
                        *self,
                        old(arguments)@.len() as nat,
                    ));
                    assert(vals_view(final(arguments)@) =~= vals_view(old(arguments)@) + op_args(
                        *self,
                    ));
                }
            },
            SearchOperator::MinId(min_id) => {
                arguments.push(BoundValue::Int(*min_id));
                query.append(" i.id >= $");
                append_dec_u64(query, arguments.len() as u64);
                proof {
                    assert(final(query)@ =~= old(query)@ + op_text(
                        *self,
                        old(arguments)@.len() as nat,
                    ));
                    assert(vals_view(final(arguments)@) =~= vals_view(old(arguments)@) + op_args(
                        *self,
                    ));
                }
            },
            SearchOperator::MaxId(max_id) => {
                arguments.push(BoundValue::Int(*max_id));
                query.append(" i.id <= $");
                append_dec_u64(query, arguments.len() as u64);
                proof {
                    assert(final(query)@ =~= old(query)@ + op_text(
                        *self,
                        old(arguments)@.len() as nat,
                    ));
                    assert(vals_view(final(arguments)@) =~= vals_view(old(arguments)@) + op_args(
                        *self,
                    ));
                }
            },
        }
        Ok(())
    }
}

/// Whether the select list holds a given column.
pub open spec fn select_has(select: Seq<SearchSelect>, c: SearchSelect) -> bool {
    exists|i: int| 0 <= i < select.len() && select[i] == c
}

/// Whether the select list holds any aggregate column.
pub open spec fn has_aggregate(select: Seq<SearchSelect>) -> bool {
    select_has(select, SearchSelect::Count) || select_has(select, SearchSelect::MinId)
        || select_has(select, SearchSelect::MaxId)
}

/// Whether every column of the select list is an aggregate.
pub open spec fn all_aggregate(select: Seq<SearchSelect>) -> bool {
    forall|i: int| 0 <= i < select.len() ==> (#[trigger] select[i]).is_aggregate()
}

/// A select list that mixes aggregate and row columns is invalid.
pub open spec fn select_mixed(select: Seq<SearchSelect>) -> bool {
    has_aggregate(select) && !all_aggregate(select)
}

/// The failure a whole request compiles to, if any, in the order the
/// request is validated: select list first, then the filter expression,
/// then the limit.
pub open spec fn compile_err(q: SearchQuery) -> Option<CompileError> {
    if q.select@.len() == 0 {
        Some(CompileError::EmptySelect)
    } else if select_mixed(q.select@) {
        Some(CompileError::AggregateMix)
    } else if q.operator is Some && op_err(q.operator->0, 0) is Some {
        op_err(q.operator->0, 0)
    } else if q.limit is Some && q.limit->0 < 0 {
        Some(CompileError::NegativeLimit)
    } else {
        None
    }
}

/// Whether the request forces the join against the attribute table.
pub open spec fn query_needs_attrs(q: SearchQuery) -> bool {
    select_has(q.select@, SearchSelect::Attributes) || (q.operator is Some && op_needs_attrs(
        q.operator->0,
    ))
}

/// The select column expressions joined with `", "`, in submitted order.
pub open spec fn joined_cols(s: Seq<SearchSelect>) -> Seq<char>
    decreases s.len(),
{
    if s.len() == 0 {
        Seq::empty()
    } else if s.len() == 1 {
        s[0].col_sql()
    } else {
        joined_cols(s.drop_last()) + ", "@ + s.last().col_sql()
    }
}

/// The join clause of the compiled query.
pub open spec fn join_clause(q: SearchQuery) -> Seq<char> {
    if query_needs_attrs(q) {
        " LEFT JOIN image_attributes a ON i.id = a.image_id"@
    } else {
        Seq::empty()
    }
}

/// The where clause of the compiled query.
pub open spec fn where_clause(op: Option<SearchOperator>) -> Seq<char> {
    match op {
        Some(o) => " WHERE "@ + op_text(o, 0),
        None => Seq::empty(),
    }
}

/// The group-by clause of the compiled query.
pub open spec fn group_clause(select: Seq<SearchSelect>) -> Seq<char> {
    if select_has(select, SearchSelect::Attributes) {
        " GROUP BY i.id"@
    } else {
        Seq::empty()
    }
}

/// The order-by clause of the compiled query.
pub open spec fn order_clause(o: Option<OrderBy>) -> Seq<char> {
    match o {
        Some(OrderBy::Id) => " ORDER BY i.id"@,
        Some(OrderBy::Hash) => " ORDER BY i.hash"@,
        None => Seq::empty(),
    }
}

/// The limit clause of the compiled query; used only for a non-negative
/// limit.
pub open spec fn limit_clause(l: Option<i64>) -> Seq<char> {
    match l {
        Some(n) => " LIMIT "@ + dec_str(n as nat),
        None => Seq::empty(),
    }
}

/// The full text of a successfully compiled request.
pub open spec fn query_text(q: SearchQuery) -> Seq<char> {
    "SELECT "@ + joined_cols(q.select@) + " FROM images_2 i"@ + join_clause(q) + where_clause(
        q.operator,
    ) + group_clause(q.select@) + order_clause(q.order_by) + limit_clause(q.limit)
}

/// The ordered bound values of a successfully compiled request.
pub open spec fn query_args(q: SearchQuery) -> Seq<BoundVal> {
    match q.operator {
        Some(op) => op_args(op),
        None => Seq::empty(),
    }
}

/// Whether the select list holds the given column.
fn contains_col(v: &Vec<SearchSelect>, c: SearchSelect) -> (r: bool)
    ensures
        r == select_has(v@, c),
{
    let mut i: usize = 0;
    while i < v.len()
        invariant
            i <= v@.len(),
            forall|j: int| 0 <= j < i ==> v@[j] != c,
        decreases v@.len() - i,
    {
        if v[i] == c {
            return true;
        }
        i = i + 1;
    }
    false
}

/// Whether every column of the select list is an aggregate.
fn all_aggregate_exec(v: &Vec<SearchSelect>) -> (r: bool)
    ensures
        r == all_aggregate(v@),
{
    let mut i: usize = 0;
    while i < v.len()
        invariant
            i <= v@.len(),
            forall|j: int| 0 <= j < i ==> (#[trigger] v@[j]).is_aggregate(),
        decreases v@.len() - i,
    {
        let s = v[i];
        if !(s == SearchSelect::Count || s == SearchSelect::MinId || s == SearchSelect::MaxId) {
            return false;
        }
        i = i + 1;
    }
    true
}

/// Appends the select column expressions, joined with `", "`.
fn append_joined_cols(out: &mut String, select: &Vec<SearchSelect>)
    ensures
        final(out)@ == old(out)@ + joined_cols(select@),
{
    let mut i: usize = 0;
    while i < select.len()
        invariant
            i <= select@.len(),
            out@ == old(out)@ + joined_cols(select@.subrange(0, i as int)),
        decreases select@.len() - i,
    {
        if i > 0 {
            out.append(", ");
        }
        out.append(select[i].to_string());
        proof {
            assert(select@.subrange(0, i as int + 1).drop_last() =~= select@.subrange(0, i as int));
            assert(out@ =~= old(out)@ + joined_cols(select@.subrange(0, i as int + 1)));
        }
        i = i + 1;
    }
    proof {
        assert(select@.subrange(0, select@.len() as int) =~= select@);
    }
}

impl SearchQuery {
    /// Compiles this request into query text with positional placeholders
    /// plus the ordered bound values, or a classified failure. The text and
    /// the values are a function of the request alone; a failure yields no
    /// query text. Validation rejects an empty select list, a select list
    /// mixing aggregate and row columns, a filter nested deeper than
    /// `MAX_QUERY_DEPTH` levels, an unparseable typed literal and a
    /// negative limit, exactly in that order.
    #[verifier::rlimit(60)]
    pub fn build_sql(&self) -> (r: Result<(String, Vec<BoundValue>), CompileError>)
        ensures
            match r {
                Ok(p) => compile_err(*self) is None && p.0@ == query_text(*self) && vals_view(p.1@)
                    == query_args(*self),
                Err(e) => compile_err(*self) == Some(e),
            },
    {
        let mut arguments: Vec<BoundValue> = Vec::new();
        let mut needs_attributes = false;

        if self.select.len() == 0 {
            return Err(CompileError::EmptySelect);
        }

        if contains_col(&self.select, SearchSelect::Attributes) {
            needs_attributes = true;
        }

        if contains_col(&self.select, SearchSelect::Count) || contains_col(
            &self.select,
            SearchSelect::MinId,
        ) || contains_col(&self.select, SearchSelect::MaxId) {
            if !all_aggregate_exec(&self.select) {
                return Err(CompileError::AggregateMix);
            }
        }

        let mut where_sql = String::new();
        match &self.operator {
            Some(op) => {
                match op.write_sql(&mut where_sql, &mut arguments, 0, &mut needs_attributes) {
                    Ok(()) => {},
                    Err(e) => {
                        return Err(e);
                    },
                }
            },
            None => {},
        }

        match self.limit {
            Some(l) => {
                if l < 0 {
                    return Err(CompileError::NegativeLimit);
                }
            },
            None => {},
        }

        let mut query = String::from_str("SELECT ");
        append_joined_cols(&mut query, &self.select);
        query.append(" FROM images_2 i");
        if needs_attributes {
            query.append(" LEFT JOIN image_attributes a ON i.id = a.image_id");
        }
        match &self.operator {
            Some(_) => {
                query.append(" WHERE ");
                query.append(where_sql.as_str());
            },
            None => {},
        }
        if contains_col(&self.select, SearchSelect::Attributes) {
            query.append(" GROUP BY i.id");
        }
        match self.order_by {
            Some(OrderBy::Id) => {
                query.append(" ORDER BY i.id");
            },
            Some(OrderBy::Hash) => {
                query.append(" ORDER BY i.hash");
            },
            None => {},
        }
        match self.limit {
            Some(l) => {
                query.append(" LIMIT ");
                append_dec_u64(&mut query, l as u64);
            },
            None => {},
        }
        proof {
            assert(query@ =~= query_text(*self));
            assert(vals_view(arguments@) =~= query_args(*self));
        }
        Ok((query, arguments))
    }
}

/// The nesting depth of a filter expression: a leaf is at level zero.
pub open spec fn op_height(op: SearchOperator) -> nat
    decreases op,
{
    match op {
        SearchOperator::Not(o) => 1 + op_height(*o),
        SearchOperator::And(p) => 1 + if op_height(p.0) >= op_height(p.1) {
            op_height(p.0)
        } else {
            op_height(p.1)
        },
        SearchOperator::Or(p) => 1 + if op_height(p.0) >= op_height(p.1) {
            op_height(p.0)
        } else {
            op_height(p.1)
        },
        _ => 0,
    }
}

/// Whether every typed literal in the expression parses as required.
pub open spec fn op_literals_ok(op: SearchOperator) -> bool
    decreases op,
{
    match op {
        SearchOperator::Not(o) => op_literals_ok(*o),
        SearchOperator::And(p) => op_literals_ok(p.0) && op_literals_ok(p.1),
        SearchOperator::Or(p) => op_literals_ok(p.0) && op_literals_ok(p.1),
        SearchOperator::Attribute(key, valopt) => match valopt {
            Some(v) => key@ == "id"@ ==> parse_i64_spec(v@) is Some,
            None => true,
        },
        _ => true,
    }
}

/// Law: a filter expression compiles exactly when its nesting depth stays
/// within `MAX_QUERY_DEPTH` of the levels still available and all its typed
/// literals parse; with parseable literals, the failure past the depth
/// bound is always the depth-exceeded error, whichever branch is deepest.
pub proof fn lemma_op_err_characterized(op: SearchOperator, depth: nat)
    ensures
        op_err(op, depth) is None <==> (op_height(op) + depth <= MAX_QUERY_DEPTH as nat
            && op_literals_ok(op)),
        (op_height(op) + depth > MAX_QUERY_DEPTH as nat && op_literals_ok(op)) ==> op_err(op, depth)
            == Some(CompileError::DepthExceeded),
    decreases op,
{
    match op {
        SearchOperator::Not(o) => {
            lemma_op_err_characterized(*o, depth + 1);
        },
        SearchOperator::And(p) => {
            lemma_op_err_characterized(p.0, depth + 1);
            lemma_op_err_characterized(p.1, depth + 1);
        },
        SearchOperator::Or(p) => {
            lemma_op_err_characterized(p.0, depth + 1);
            lemma_op_err_characterized(p.1, depth + 1);
        },
        _ => {},
    }
}

/// Law: a request with a non-empty select list that does not mix aggregate
/// and row columns, a non-negative (or absent) limit and a filter (if any)
/// within the depth bound whose typed literals parse always compiles; the
/// compiled text then lists exactly the submitted columns, in submitted
/// order, joined after the select keyword.
pub proof fn lemma_valid_query_compiles(q: SearchQuery)
    requires
        q.select@.len() > 0,
        !select_mixed(q.select@),
        q.limit is Some ==> q.limit->0 >= 0,
        q.operator is Some ==> op_height(q.operator->0) <= MAX_QUERY_DEPTH as nat && op_literals_ok(
            q.operator->0,
        ),
    ensures
        compile_err(q) is None,
        exists|rest: Seq<char>|
            query_text(q) == "SELECT "@ + joined_cols(q.select@) + rest,
{
    if q.operator is Some {
        lemma_op_err_characterized(q.operator->0, 0);
    }
    let rest = " FROM images_2 i"@ + join_clause(q) + where_clause(q.operator) + group_clause(
        q.select@,
    ) + order_clause(q.order_by) + limit_clause(q.limit);
    assert(query_text(q) == "SELECT "@ + joined_cols(q.select@) + rest) by {
        assert(query_text(q) =~= "SELECT "@ + joined_cols(q.select@) + rest);
    }
}

/// Law: any expression nested deeper than `MAX_QUERY_DEPTH` levels fails
/// compilation, whichever branch is deepest; when its typed literals parse,
/// the failure is the depth-exceeded error.
pub proof fn lemma_deep_operator_rejected(q: SearchQuery)
    requires
        q.select@.len() > 0,
        !select_mixed(q.select@),
        q.operator is Some,
        op_height(q.operator->0) > MAX_QUERY_DEPTH as nat,
    ensures
        compile_err(q) is Some,
        op_literals_ok(q.operator->0) ==> compile_err(q) == Some(CompileError::DepthExceeded),
{
    lemma_op_err_characterized(q.operator->0, 0);
}

/// Law: compilation is deterministic. The compile contract pins the query
/// text and the bound-value sequence as functions of the request alone, so
/// any two outcomes it permits for the same request are identical,
/// byte for byte and value for value.
pub proof fn lemma_compile_deterministic(
    q: SearchQuery,
    t1: Seq<char>,
    a1: Seq<BoundVal>,
    t2: Seq<char>,
    a2: Seq<BoundVal>,
)
    requires
        t1 == query_text(q),
        a1 == query_args(q),
        t2 == query_text(q),
        a2 == query_args(q),
    ensures
        t1 == t2,
        a1 == a2,
{
}

} // verus!
