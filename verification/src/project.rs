//! The column projector: folds one fetched row into an ordered output
//! mapping, one entry per select column, in submitted order. Multi-valued
//! attributes are folded into a mapping from key to all values sharing that
//! key; no value is dropped, and keys with no pairs are absent.

use vstd::prelude::*;

verus! {

use crate::hashing::{hex_of, hex_encode};
use crate::search::SearchSelect;

/// One attribute row-fragment handed back by storage: a key-value pair.
#[derive(Clone, Debug, PartialEq, Eq)]
pub struct AttrPair {
    pub key: String,
    pub value: String,
}

impl View for AttrPair {
    type V = (Seq<char>, Seq<char>);

    open spec fn view(&self) -> (Seq<char>, Seq<char>) {
        (self.key@, self.value@)
    }
}

/// The models of a sequence of attribute pairs.
pub open spec fn pairs_view(s: Seq<AttrPair>) -> Seq<(Seq<char>, Seq<char>)> {
    s.map_values(|p: AttrPair| p@)
}

/// One folded attribute entry: a key and every value sharing it, in the
/// order the pairs arrived.
#[derive(Clone, Debug, PartialEq, Eq)]
pub struct AttrEntry {
    pub key: String,
    pub values: Vec<String>,
}

/// The models of a sequence of strings.
pub open spec fn strs_view(s: Seq<String>) -> Seq<Seq<char>> {
    s.map_values(|x: String| x@)
}

impl View for AttrEntry {
    type V = (Seq<char>, Seq<Seq<char>>);

    open spec fn view(&self) -> (Seq<char>, Seq<Seq<char>>) {
        (self.key@, strs_view(self.values@))
    }
}

/// The models of a sequence of folded attribute entries.
pub open spec fn entries_view(s: Seq<AttrEntry>) -> Seq<(Seq<char>, Seq<Seq<char>>)> {
    s.map_values(|e: AttrEntry| e@)
}

/// The distinct keys of the pairs, in first-occurrence order.
pub open spec fn group_keys(pairs: Seq<(Seq<char>, Seq<char>)>) -> Seq<Seq<char>>
    decreases pairs.len(),
{
    if pairs.len() == 0 {
        Seq::empty()
    } else {
        let rest = group_keys(pairs.drop_last());
        if rest.contains(pairs.last().0) {
            rest
        } else {
            rest.push(pairs.last().0)
        }
    }
}

/// Every value paired with key `k`, in arrival order.
pub open spec fn values_for(pairs: Seq<(Seq<char>, Seq<char>)>, k: Seq<char>) -> Seq<Seq<char>>
    decreases pairs.len(),
{
    if pairs.len() == 0 {
        Seq::empty()
    } else {
        let rest = values_for(pairs.drop_last(), k);
        if pairs.last().0 == k {
            rest.push(pairs.last().1)
        } else {
            rest
        }
    }
}

/// The pairs folded into a mapping from each key to all its values.
pub open spec fn grouped(pairs: Seq<(Seq<char>, Seq<char>)>) -> Seq<(Seq<char>, Seq<Seq<char>>)> {
    group_keys(pairs).map_values(|k: Seq<char>| (k, values_for(pairs, k)))
}

/// A key appears among the grouped keys exactly when some pair holds it.
pub proof fn lemma_group_keys_contains(pairs: Seq<(Seq<char>, Seq<char>)>, k: Seq<char>)
    ensures
        group_keys(pairs).contains(k) <==> exists|i: int|
            0 <= i < pairs.len() && (#[trigger] pairs[i]).0 == k,
    decreases pairs.len(),
{
    if pairs.len() > 0 {
        let rest = pairs.drop_last();
        let gk = group_keys(pairs);
        let gkr = group_keys(rest);
        lemma_group_keys_contains(rest, k);
        if pairs.last().0 == k {
            assert(pairs[pairs.len() - 1].0 == k);
            if gkr.contains(k) {
                assert(gk == gkr);
            } else {
                assert(gk == gkr.push(pairs.last().0));
                assert(gk[gk.len() - 1] == k);
            }
            assert(gk.contains(k));
        } else {
            if gk.contains(k) {
                if !gkr.contains(pairs.last().0) {
                    let j = choose|j: int| 0 <= j < gk.len() && gk[j] == k;
                    assert(gk == gkr.push(pairs.last().0));
                    assert(j < gkr.len());
                    assert(gkr[j] == k);
                }
                assert(gkr.contains(k));
                let i = choose|i: int| 0 <= i < rest.len() && (#[trigger] rest[i]).0 == k;
                assert(pairs[i].0 == k);
            }
            if exists|i: int| 0 <= i < pairs.len() && (#[trigger] pairs[i]).0 == k {
                let i = choose|i: int| 0 <= i < pairs.len() && (#[trigger] pairs[i]).0 == k;
                assert(i < pairs.len() - 1);
                assert(rest[i].0 == k);
                assert(gkr.contains(k));
                if !gkr.contains(pairs.last().0) {
                    assert(gk == gkr.push(pairs.last().0));
                    let j = choose|j: int| 0 <= j < gkr.len() && gkr[j] == k;
                    assert(gk[j] == k);
                }
                assert(gk.contains(k));
            }
        }
    }
}

/// The grouped keys hold no duplicates.
pub proof fn lemma_group_keys_nodup(pairs: Seq<(Seq<char>, Seq<char>)>)
    ensures
        group_keys(pairs).no_duplicates(),
    decreases pairs.len(),
{
    if pairs.len() > 0 {
        lemma_group_keys_nodup(pairs.drop_last());
    }
}

/// A key no pair holds has no values.
pub proof fn lemma_values_for_absent(pairs: Seq<(Seq<char>, Seq<char>)>, k: Seq<char>)
    requires
        forall|i: int| 0 <= i < pairs.len() ==> (#[trigger] pairs[i]).0 != k,
    ensures
        values_for(pairs, k) == Seq::<Seq<char>>::empty(),
    decreases pairs.len(),
{
    if pairs.len() > 0 {
        assert(forall|i: int|
            0 <= i < pairs.drop_last().len() ==> (#[trigger] pairs.drop_last()[i]).0 != k);
        lemma_values_for_absent(pairs.drop_last(), k);
    }
}

/// The index of the entry holding `key`, if any.
fn find_entry(entries: &Vec<AttrEntry>, key: &String) -> (r: Option<usize>)
    ensures
        match r {
            Some(j) => 0 <= j < entries@.len() && entries@[j as int].key@ == key@,
            None => forall|j: int| 0 <= j < entries@.len() ==> (#[trigger] entries@[j]).key@ != key@,
        },
{
    let mut i: usize = 0;
    while i < entries.len()
        invariant
            i <= entries@.len(),
            forall|j: int| 0 <= j < i ==> (#[trigger] entries@[j]).key@ != key@,
        decreases entries@.len() - i,
    {
        if entries[i].key.eq(key) {
            return Some(i);
        }
        i = i + 1;
    }
    None
}

/// Folds attribute row-fragments into a mapping from each key to the array
/// of all values sharing that key: one entry per distinct key in
/// first-occurrence order, values in arrival order, no value dropped.
pub fn fold_attribute_pairs(pairs: &Vec<AttrPair>) -> (r: Vec<AttrEntry>)
    ensures
        entries_view(r@) == grouped(pairs_view(pairs@)),
{
    let mut out: Vec<AttrEntry> = Vec::new();
    let mut i: usize = 0;
    proof {
        assert(pairs_view(pairs@.subrange(0, 0)) =~= Seq::<(Seq<char>, Seq<char>)>::empty());
        assert(entries_view(out@) =~~= grouped(pairs_view(pairs@.subrange(0, 0))));
    }
    while i < pairs.len()
        invariant
            i <= pairs@.len(),
            entries_view(out@) == grouped(pairs_view(pairs@.subrange(0, i as int))),
        decreases pairs@.len() - i,
    {
        let ghost pre = pairs_view(pairs@.subrange(0, i as int));
        let ghost post = pairs_view(pairs@.subrange(0, i as int + 1));
        proof {
            assert(pairs@.subrange(0, i as int + 1).drop_last() =~= pairs@.subrange(0, i as int));
            assert(post.drop_last() =~= pre);
            assert(post.last() == pairs@[i as int]@);
            lemma_group_keys_nodup(pre);
            lemma_group_keys_contains(pre, pairs@[i as int].key@);
        }
        let p_key = pairs[i].key.clone();
        let p_value = pairs[i].value.clone();
        proof {
            assert(post.last().0 == p_key@);
            assert(post.last().1 == p_value@);
            assert(entries_view(out@).len() == grouped(pre).len());
            assert(out@.len() == group_keys(pre).len());
            assert forall|ii: int| 0 <= ii < out@.len() implies (#[trigger] out@[ii]).key@
                == group_keys(pre)[ii] && strs_view(out@[ii].values@) == values_for(
                pre,
                group_keys(pre)[ii],
            ) by {
                assert(entries_view(out@)[ii] == grouped(pre)[ii]);
                assert(entries_view(out@)[ii] == out@[ii]@);
                assert(grouped(pre)[ii] == (group_keys(pre)[ii], values_for(pre, group_keys(pre)[ii])));
            }
        }
        let ghost old_out = out@;
        match find_entry(&out, &p_key) {
            Some(j) => {
                let mut e = out.remove(j);
                e.values.push(p_value);
                out.insert(j, e);
                proof {
                    assert(group_keys(pre)[j as int] == p_key@);
                    assert(group_keys(pre).contains(p_key@));
                    assert(group_keys(post) == group_keys(pre));
                    assert forall|k: Seq<char>| k != p_key@ implies values_for(post, k)
                        == values_for(pre, k) by {
                        assert(values_for(post, k) =~= values_for(pre, k));
                    }
                    assert(values_for(post, p_key@) =~= values_for(pre, p_key@).push(p_value@));
                    assert(out@ =~= old_out.update(j as int, out@[j as int]));
                    assert(out@[j as int].key@ == p_key@);
                    assert(strs_view(out@[j as int].values@) =~= strs_view(
                        old_out[j as int].values@,
                    ).push(p_value@));
                    lemma_group_keys_nodup(pre);
                    assert forall|ii: int| 0 <= ii < out@.len() implies entries_view(out@)[ii]
                        == grouped(post)[ii] by {
                        if ii == j {
                            assert(out@[ii]@ == (p_key@, values_for(post, p_key@)));
                        } else {
                            assert(old_out[ii].key@ == group_keys(pre)[ii]);
                            assert(group_keys(pre)[ii] != p_key@);
                            assert(out@[ii]@ == old_out[ii]@);
                        }
                    }
                    assert(entries_view(out@) =~= grouped(post));
                }
            },
            None => {
                let mut vs: Vec<String> = Vec::new();
                vs.push(p_value);
                out.push(AttrEntry { key: p_key, values: vs });
                proof {
                    assert(forall|ii: int|
                        0 <= ii < old_out.len() ==> (#[trigger] old_out[ii]).key@ != post.last().0);
                    assert(!group_keys(pre).contains(post.last().0)) by {
                        if group_keys(pre).contains(post.last().0) {
                            let jj = choose|jj: int|
                                0 <= jj < group_keys(pre).len() && group_keys(pre)[jj]
                                    == post.last().0;
                            assert(old_out[jj].key@ == post.last().0);
                        }
                    }
                    assert(group_keys(post) == group_keys(pre).push(post.last().0));
                    assert forall|k: Seq<char>| k != post.last().0 implies values_for(post, k)
                        == values_for(pre, k) by {
                        assert(values_for(post, k) =~= values_for(pre, k));
                    }
                    assert(forall|ii: int|
                        0 <= ii < pre.len() ==> (#[trigger] pre[ii]).0 != post.last().0) by {
                        lemma_group_keys_contains(pre, post.last().0);
                    }
                    lemma_values_for_absent(pre, post.last().0);
                    assert(values_for(post, post.last().0) =~= Seq::<Seq<char>>::empty().push(
                        post.last().1,
                    ));
                    lemma_group_keys_nodup(pre);
                    assert(strs_view(vs@) =~= Seq::<Seq<char>>::empty().push(p_value@));
                    assert forall|ii: int| 0 <= ii < out@.len() implies entries_view(out@)[ii]
                        == grouped(post)[ii] by {
                        if ii < old_out.len() {
                            assert(group_keys(pre)[ii] != post.last().0);
                            assert(out@[ii]@ == old_out[ii]@);
                        } else {
                            assert(out@[ii]@ == (p_key@, strs_view(vs@)));
                        }
                    }
                    assert(entries_view(out@) =~= grouped(post));
                }
            },
        }
        i = i + 1;
    }
    proof {
        assert(pairs@.subrange(0, pairs@.len() as int) =~= pairs@);
    }
    out
}

/// Law: no value is dropped by folding — every pair's value stands in the
/// entry of its key.
pub proof fn lemma_no_value_dropped(pairs: Seq<(Seq<char>, Seq<char>)>, i: int)
    requires
        0 <= i < pairs.len(),
    ensures
        exists|j: int|
            0 <= j < grouped(pairs).len() && (#[trigger] grouped(pairs)[j]).0 == pairs[i].0
                && grouped(pairs)[j].1.contains(pairs[i].1),
{
    lemma_group_keys_contains(pairs, pairs[i].0);
    assert(group_keys(pairs).contains(pairs[i].0));
    let j = choose|j: int|
        0 <= j < group_keys(pairs).len() && group_keys(pairs)[j] == pairs[i].0;
    lemma_values_for_contains(pairs, i);
    assert(grouped(pairs)[j] == (group_keys(pairs)[j], values_for(pairs, group_keys(pairs)[j])));
}

/// Every pair's value stands among the values collected for its key.
pub proof fn lemma_values_for_contains(pairs: Seq<(Seq<char>, Seq<char>)>, i: int)
    requires
        0 <= i < pairs.len(),
    ensures
        values_for(pairs, pairs[i].0).contains(pairs[i].1),
    decreases pairs.len(),
{
    let k = pairs[i].0;
    let vs = values_for(pairs, k);
    if i == pairs.len() - 1 {
        assert(vs == values_for(pairs.drop_last(), k).push(pairs.last().1));
        assert(vs[vs.len() - 1] == pairs[i].1);
    } else {
        assert(pairs.drop_last()[i] == pairs[i]);
        lemma_values_for_contains(pairs.drop_last(), i);
        let rest = values_for(pairs.drop_last(), k);
        let jj = choose|jj: int| 0 <= jj < rest.len() && rest[jj] == pairs[i].1;
        if pairs.last().0 == k {
            assert(vs == rest.push(pairs.last().1));
        } else {
            assert(vs == rest);
        }
        assert(vs[jj] == pairs[i].1);
    }
}

/// One column value of a fetched row, as plain data.
pub enum ColumnValue {
    Int(i64),
    Bytes(Vec<u8>),
    Bool(bool),
    IntArray(Vec<i64>),
    NullableText(Option<String>),
    AttrPairs(Vec<AttrPair>),
}

/// The mathematical model of a fetched column value.
pub enum ColVal {
    Int(i64),
    Bytes(Seq<u8>),
    Bool(bool),
    IntArray(Seq<i64>),
    NullableText(Option<Seq<char>>),
    AttrPairs(Seq<(Seq<char>, Seq<char>)>),
}

impl View for ColumnValue {
    type V = ColVal;

    open spec fn view(&self) -> ColVal {
        match self {
            ColumnValue::Int(n) => ColVal::Int(*n),
            ColumnValue::Bytes(b) => ColVal::Bytes(b@),
            ColumnValue::Bool(b) => ColVal::Bool(*b),
            ColumnValue::IntArray(v) => ColVal::IntArray(v@),
            ColumnValue::NullableText(t) => ColVal::NullableText(
                match t {
                    Some(s) => Some(s@),
                    None => None,
                },
            ),
            ColumnValue::AttrPairs(p) => ColVal::AttrPairs(pairs_view(p@)),
        }
    }
}

/// The models of a fetched row.
pub open spec fn row_view(s: Seq<ColumnValue>) -> Seq<ColVal> {
    s.map_values(|v: ColumnValue| v@)
}

/// One projected output value.
#[derive(Clone, Debug, PartialEq, Eq)]
pub enum OutValue {
    Int(i64),
    Text(String),
    Bool(bool),
    IntArray(Vec<i64>),
    NullableText(Option<String>),
    AttrMap(Vec<AttrEntry>),
}

/// The mathematical model of a projected output value.
pub enum OutVal {
    Int(i64),
    Text(Seq<char>),
    Bool(bool),
    IntArray(Seq<i64>),
    NullableText(Option<Seq<char>>),
    AttrMap(Seq<(Seq<char>, Seq<Seq<char>>)>),
}

impl View for OutValue {
    type V = OutVal;

    open spec fn view(&self) -> OutVal {
        match self {
            OutValue::Int(n) => OutVal::Int(*n),
            OutValue::Text(s) => OutVal::Text(s@),
            OutValue::Bool(b) => OutVal::Bool(*b),
            OutValue::IntArray(v) => OutVal::IntArray(v@),
            OutValue::NullableText(t) => OutVal::NullableText(
                match t {
                    Some(s) => Some(s@),
                    None => None,
                },
            ),
            OutValue::AttrMap(e) => OutVal::AttrMap(entries_view(e@)),
        }
    }
}

/// One entry of an ordered output mapping: a column name and its value.
#[derive(Clone, Debug, PartialEq, Eq)]
pub struct OutColumn {
    pub name: String,
    pub value: OutValue,
}

/// A storage response that violates the expected row shape signals a
/// schema mismatch and is unrecoverable for the projection.
#[derive(Clone, Copy, Debug, PartialEq, Eq, Structural)]
pub enum ProjectError {
    ShapeMismatch,
}

/// The shape storage must hand back for each select column.
pub open spec fn col_shape_ok(c: SearchSelect, v: ColVal) -> bool {
    match c {
        SearchSelect::Id => v is Int,
        SearchSelect::Hash => v is Bytes,
        SearchSelect::Active => v is Bool,
        SearchSelect::Tags => v is IntArray,
        SearchSelect::Caption => v is NullableText,
        SearchSelect::Attributes => v is AttrPairs,
        SearchSelect::Count => v is Int,
        SearchSelect::MinId => v is Int,
        SearchSelect::MaxId => v is Int,
    }
}

/// Whether a whole row matches the select list's shape.
pub open spec fn row_shape_ok(select: Seq<SearchSelect>, row: Seq<ColVal>) -> bool {
    row.len() == select.len() && forall|i: int|
        0 <= i < select.len() ==> col_shape_ok(select[i], #[trigger] row[i])
}

/// How one column value projects: ids and aggregates as integers, the hash
/// as lowercase hex text, tag membership as an id array, the caption as
/// nullable text, and attribute pairs folded into a key-to-values mapping.
pub open spec fn project_col_spec(v: ColVal) -> OutVal {
    match v {
        ColVal::Int(n) => OutVal::Int(n),
        ColVal::Bytes(b) => OutVal::Text(hex_of(b)),
        ColVal::Bool(b) => OutVal::Bool(b),
        ColVal::IntArray(a) => OutVal::IntArray(a),
        ColVal::NullableText(t) => OutVal::NullableText(t),
        ColVal::AttrPairs(p) => OutVal::AttrMap(grouped(p)),
    }
}

/// Whether a column value has the shape its select column requires.
fn shape_ok_exec(c: SearchSelect, v: &ColumnValue) -> (r: bool)
    ensures
        r == col_shape_ok(c, v@),
{
    match c {
        SearchSelect::Id => matches!(v, ColumnValue::Int(_)),
        SearchSelect::Hash => matches!(v, ColumnValue::Bytes(_)),
        SearchSelect::Active => matches!(v, ColumnValue::Bool(_)),
        SearchSelect::Tags => matches!(v, ColumnValue::IntArray(_)),
        SearchSelect::Caption => matches!(v, ColumnValue::NullableText(_)),
        SearchSelect::Attributes => matches!(v, ColumnValue::AttrPairs(_)),
        SearchSelect::Count => matches!(v, ColumnValue::Int(_)),
        SearchSelect::MinId => matches!(v, ColumnValue::Int(_)),
        SearchSelect::MaxId => matches!(v, ColumnValue::Int(_)),
    }
}

/// Projects one column value.
fn project_value(v: &ColumnValue) -> (r: OutValue)
    ensures
        r@ == project_col_spec(v@),
{
    match v {
        ColumnValue::Int(n) => OutValue::Int(*n),
        ColumnValue::Bytes(b) => OutValue::Text(hex_encode(b.as_slice())),
        ColumnValue::Bool(b) => OutValue::Bool(*b),
        ColumnValue::IntArray(a) => {
            let copy = a.clone();
            proof {
                assert(copy@ =~= a@);
            }
            OutValue::IntArray(copy)
        },
        ColumnValue::NullableText(t) => OutValue::NullableText(
            match t {
                Some(s) => Some(s.clone()),
                None => None,
            },
        ),
        ColumnValue::AttrPairs(p) => OutValue::AttrMap(fold_attribute_pairs(p)),
    }
}

/// Projects one fetched row through the select list: one output entry per
/// select column, in submitted order, each named after its column. A row
/// whose shape does not match the select list is rejected.
pub fn project_row(select: &Vec<SearchSelect>, row: &Vec<ColumnValue>) -> (r: Result<
    Vec<OutColumn>,
    ProjectError,
>)
    ensures
        r is Ok <==> row_shape_ok(select@, row_view(row@)),
        match r {
            Ok(out) => out@.len() == select@.len() && forall|i: int|
                0 <= i < out@.len() ==> (#[trigger] out@[i]).name@ == select@[i].spec_json_name()
                    && out@[i].value@ == project_col_spec(row_view(row@)[i]),
            Err(e) => e == ProjectError::ShapeMismatch,
        },
{
    if row.len() != select.len() {
        return Err(ProjectError::ShapeMismatch);
    }
    let mut out: Vec<OutColumn> = Vec::new();
    let mut i: usize = 0;
    while i < select.len()
        invariant
            i <= select@.len(),
            select@.len() == row@.len(),
            out@.len() == i,
            forall|j: int| 0 <= j < i ==> col_shape_ok(select@[j], #[trigger] row_view(row@)[j]),
            forall|j: int|
                0 <= j < i ==> (#[trigger] out@[j]).name@ == select@[j].spec_json_name()
                    && out@[j].value@ == project_col_spec(row_view(row@)[j]),
        decreases select@.len() - i,
    {
        let c = select[i];
        if !shape_ok_exec(c, &row[i]) {
            proof {
                assert(!col_shape_ok(select@[i as int], row_view(row@)[i as int]));
            }
            return Err(ProjectError::ShapeMismatch);
        }
        let value = project_value(&row[i]);
        let name = String::from_str(c.to_json_name());
        out.push(OutColumn { name, value });
        i = i + 1;
    }
    Ok(out)
}

} // verus!
