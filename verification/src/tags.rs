//! The tag relationship resolver: canonicalizes tag aliases, rewrites tag
//! implications through them, and closes the implication relation
//! transitively. Run once at startup over static reference data; any
//! integrity violation in the alias data is fatal.

use vstd::prelude::*;

verus! {

use crate::search::string_is;
use crate::project::strs_view;
use crate::text::{trimmed, trim_ascii};
use vstd::string::StringExecFns;

/// One raw alias or implication record of the reference data.
pub struct TagFact {
    pub antecedent: String,
    pub consequent: String,
    pub status: String,
}

/// Only facts marked active are kept.
pub open spec fn fact_active(f: TagFact) -> bool {
    f.status@ == "active"@
}

/// An integrity violation in the alias reference data; fatal at load time.
#[derive(Clone, Copy, Debug, PartialEq, Eq, Structural)]
pub enum ResolverError {
    /// An active alias maps a tag to itself.
    SelfAlias,
    /// Two active aliases map one antecedent to different consequents.
    ConflictingAlias,
    /// An alias consequent is itself an antecedent elsewhere.
    AliasChain,
}

/// Distinct keys, by view, across an association list of strings.
pub open spec fn nodup_pair_keys(s: Seq<(String, String)>) -> bool {
    forall|i: int, j: int| 0 <= i < j < s.len() ==> (#[trigger] s[i]).0@ != (#[trigger] s[j]).0@
}

/// Distinct strings, by view.
pub open spec fn nodup_strs(s: Seq<String>) -> bool {
    forall|i: int, j: int| 0 <= i < j < s.len() ==> (#[trigger] s[i])@ != (#[trigger] s[j])@
}

/// The map an association list of strings holds.
pub open spec fn assoc_map(s: Seq<(String, String)>) -> Map<Seq<char>, Seq<char>>
    decreases s.len(),
{
    if s.len() == 0 {
        Map::empty()
    } else {
        assoc_map(s.drop_last()).insert(s.last().0@, s.last().1@)
    }
}

/// A key is in the map exactly when some entry holds it.
pub proof fn lemma_assoc_map_dom(s: Seq<(String, String)>, k: Seq<char>)
    ensures
        assoc_map(s).contains_key(k) <==> exists|i: int|
            0 <= i < s.len() && (#[trigger] s[i]).0@ == k,
    decreases s.len(),
{
    if s.len() > 0 {
        lemma_assoc_map_dom(s.drop_last(), k);
        if s.last().0@ == k {
            assert(s[s.len() - 1].0@ == k);
        } else {
            if exists|i: int| 0 <= i < s.drop_last().len() && (#[trigger] s.drop_last()[i]).0@
                == k {
                let i = choose|i: int|
                    0 <= i < s.drop_last().len() && (#[trigger] s.drop_last()[i]).0@ == k;
                assert(s[i].0@ == k);
            }
            if exists|i: int| 0 <= i < s.len() && (#[trigger] s[i]).0@ == k {
                let i = choose|i: int| 0 <= i < s.len() && (#[trigger] s[i]).0@ == k;
                assert(i < s.len() - 1);
                assert(s.drop_last()[i].0@ == k);
            }
        }
    }
}

/// With distinct keys, each entry gives the map's value at its key.
pub proof fn lemma_assoc_map_index(s: Seq<(String, String)>, i: int)
    requires
        nodup_pair_keys(s),
        0 <= i < s.len(),
    ensures
        assoc_map(s).contains_key(s[i].0@),
        assoc_map(s)[s[i].0@] == s[i].1@,
    decreases s.len(),
{
    if i == s.len() - 1 {
    } else {
        assert(s.drop_last()[i] == s[i]);
        assert(nodup_pair_keys(s.drop_last())) by {
            assert(forall|a: int, b: int|
                0 <= a < b < s.drop_last().len() ==> (#[trigger] s.drop_last()[a]).0@ != (
                #[trigger] s.drop_last()[b]).0@);
        }
        lemma_assoc_map_index(s.drop_last(), i);
        assert(s[i].0@ != s.last().0@);
    }
}

/// The first entry holding `key`, if any.
fn pairs_lookup(v: &Vec<(String, String)>, key: &String) -> (r: Option<usize>)
    ensures
        match r {
            Some(j) => 0 <= j < v@.len() && v@[j as int].0@ == key@,
            None => forall|j: int| 0 <= j < v@.len() ==> (#[trigger] v@[j]).0@ != key@,
        },
{
    let mut i: usize = 0;
    while i < v.len()
        invariant
            i <= v@.len(),
            forall|j: int| 0 <= j < i ==> (#[trigger] v@[j]).0@ != key@,
        decreases v@.len() - i,
    {
        if v[i].0.eq(key) {
            return Some(i);
        }
        i = i + 1;
    }
    None
}

/// The alias map built from the active facts, keeping the first consequent
/// seen for each antecedent.
pub open spec fn alias_map_of(facts: Seq<TagFact>) -> Map<Seq<char>, Seq<char>>
    decreases facts.len(),
{
    if facts.len() == 0 {
        Map::empty()
    } else {
        let m = alias_map_of(facts.drop_last());
        let f = facts.last();
        if fact_active(f) && !m.contains_key(f.antecedent@) {
            m.insert(f.antecedent@, f.consequent@)
        } else {
            m
        }
    }
}

/// The first violation met scanning the facts in order: a self-alias or a
/// conflicting duplicate antecedent (identical duplicates are tolerated).
pub open spec fn alias_scan_err(facts: Seq<TagFact>) -> Option<ResolverError>
    decreases facts.len(),
{
    if facts.len() == 0 {
        None
    } else {
        let e = alias_scan_err(facts.drop_last());
        if e is Some {
            e
        } else {
            let m = alias_map_of(facts.drop_last());
            let f = facts.last();
            if !fact_active(f) {
                None
            } else if f.antecedent@ == f.consequent@ {
                Some(ResolverError::SelfAlias)
            } else if m.contains_key(f.antecedent@) && m[f.antecedent@] != f.consequent@ {
                Some(ResolverError::ConflictingAlias)
            } else {
                None
            }
        }
    }
}

/// A violation found in a prefix of the facts stands for the whole list.
pub proof fn lemma_alias_scan_err_extends(facts: Seq<TagFact>, i: int)
    requires
        0 <= i <= facts.len(),
        alias_scan_err(facts.subrange(0, i)) is Some,
    ensures
        alias_scan_err(facts) == alias_scan_err(facts.subrange(0, i)),
    decreases facts.len() - i,
{
    if i == facts.len() {
        assert(facts.subrange(0, i) =~= facts);
    } else {
        assert(facts.subrange(0, i + 1).drop_last() =~= facts.subrange(0, i));
        lemma_alias_scan_err_extends(facts, i + 1);
    }
}

/// Whether some alias consequent is itself an antecedent (an alias chain).
pub open spec fn has_chain(m: Map<Seq<char>, Seq<char>>) -> bool {
    exists|k: Seq<char>| m.contains_key(k) && m.contains_key(#[trigger] m[k])
}

/// The violation the alias data as a whole resolves to, if any: the first
/// scan violation, else a chain.
pub open spec fn aliases_err(facts: Seq<TagFact>) -> Option<ResolverError> {
    if alias_scan_err(facts) is Some {
        alias_scan_err(facts)
    } else if has_chain(alias_map_of(facts)) {
        Some(ResolverError::AliasChain)
    } else {
        None
    }
}

/// Whether this fact is marked active.
fn fact_is_active(f: &TagFact) -> (r: bool)
    ensures
        r == fact_active(*f),
{
    string_is(&f.status, "active")
}

/// Builds the alias map from raw alias facts: keeps active facts only,
/// and rejects self-aliases, conflicting duplicate antecedents (identical
/// duplicates are tolerated) and alias chains.
pub fn read_tag_aliases(facts: &Vec<TagFact>) -> (r: Result<Vec<(String, String)>, ResolverError>)
    ensures
        match r {
            Ok(v) => aliases_err(facts@) is None && nodup_pair_keys(v@) && assoc_map(v@)
                == alias_map_of(facts@),
            Err(e) => aliases_err(facts@) == Some(e),
        },
{
    let mut out: Vec<(String, String)> = Vec::new();
    let mut i: usize = 0;
    while i < facts.len()
        invariant
            i <= facts@.len(),
            nodup_pair_keys(out@),
            alias_scan_err(facts@.subrange(0, i as int)) is None,
            assoc_map(out@) == alias_map_of(facts@.subrange(0, i as int)),
        decreases facts@.len() - i,
    {
        let ghost pre = facts@.subrange(0, i as int);
        let ghost post = facts@.subrange(0, i as int + 1);
        proof {
            assert(post.drop_last() =~= pre);
            assert(post.last() == facts@[i as int]);
        }
        let active = fact_is_active(&facts[i]);
        if active {
            if facts[i].antecedent.eq(&facts[i].consequent) {
                proof {
                    assert(alias_scan_err(post) == Some(ResolverError::SelfAlias));
                    lemma_alias_scan_err_extends(facts@, i as int + 1);
                }
                return Err(ResolverError::SelfAlias);
            }
            match pairs_lookup(&out, &facts[i].antecedent) {
                Some(j) => {
                    proof {
                        lemma_assoc_map_index(out@, j as int);
                    }
                    if !out[j].1.eq(&facts[i].consequent) {
                        proof {
                            assert(alias_scan_err(post) == Some(ResolverError::ConflictingAlias));
                            lemma_alias_scan_err_extends(facts@, i as int + 1);
                        }
                        return Err(ResolverError::ConflictingAlias);
                    }
                    proof {
                        assert(alias_map_of(post) == assoc_map(out@));
                        assert(alias_scan_err(post) is None);
                    }
                },
                None => {
                    proof {
                        lemma_assoc_map_dom(out@, facts@[i as int].antecedent@);
                        assert(!assoc_map(out@).contains_key(facts@[i as int].antecedent@));
                        assert(alias_scan_err(post) is None);
                    }
                    let a = facts[i].antecedent.clone();
                    let c = facts[i].consequent.clone();
                    let ghost out_before = out@;
                    out.push((a, c));
                    proof {
                        assert(out@.drop_last() =~= out_before);
                    }
                },
            }
        } else {
            proof {
                assert(alias_map_of(post) == alias_map_of(pre));
                assert(alias_scan_err(post) is None);
            }
        }
        i = i + 1;
    }
    proof {
        assert(facts@.subrange(0, facts@.len() as int) =~= facts@);
    }
    let ghost m = assoc_map(out@);
    let mut k: usize = 0;
    while k < out.len()
        invariant
            k <= out@.len(),
            nodup_pair_keys(out@),
            m == assoc_map(out@),
            m == alias_map_of(facts@),
            alias_scan_err(facts@) is None,
            forall|j: int| 0 <= j < k ==> !m.contains_key((#[trigger] out@[j]).1@),
        decreases out@.len() - k,
    {
        match pairs_lookup(&out, &out[k].1) {
            Some(_) => {
                proof {
                    lemma_assoc_map_index(out@, k as int);
                    lemma_assoc_map_dom(out@, out@[k as int].1@);
                    assert(m.contains_key(out@[k as int].0@) && m.contains_key(
                        m[out@[k as int].0@],
                    ));
                    assert(has_chain(m));
                }
                return Err(ResolverError::AliasChain);
            },
            None => {
                proof {
                    lemma_assoc_map_dom(out@, out@[k as int].1@);
                }
            },
        }
        k = k + 1;
    }
    proof {
        assert(!has_chain(m)) by {
            if has_chain(m) {
                let key = choose|key: Seq<char>|
                    m.contains_key(key) && m.contains_key(#[trigger] m[key]);
                lemma_assoc_map_dom(out@, key);
                let j = choose|j: int| 0 <= j < out@.len() && (#[trigger] out@[j]).0@ == key;
                lemma_assoc_map_index(out@, j);
                assert(m[key] == out@[j].1@);
                assert(!m.contains_key(out@[j].1@));
            }
        }
    }
    Ok(out)
}

/// Distinct keys, by view, across an implication association list.
pub open spec fn nodup_imp_keys(s: Seq<(String, Vec<String>)>) -> bool {
    forall|i: int, j: int| 0 <= i < j < s.len() ==> (#[trigger] s[i]).0@ != (#[trigger] s[j]).0@
}

/// Distinct strings, by view, within every entry's value list.
pub open spec fn nodup_imp_values(s: Seq<(String, Vec<String>)>) -> bool {
    forall|i: int| 0 <= i < s.len() ==> nodup_strs((#[trigger] s[i]).1@)
}

/// The set of views a list of strings holds.
pub open spec fn strs_set(s: Seq<String>) -> Set<Seq<char>> {
    strs_view(s).to_set()
}

/// The map from each key to its set of values that an implication
/// association list holds.
pub open spec fn imp_map(s: Seq<(String, Vec<String>)>) -> Map<Seq<char>, Set<Seq<char>>>
    decreases s.len(),
{
    if s.len() == 0 {
        Map::empty()
    } else {
        imp_map(s.drop_last()).insert(s.last().0@, strs_set(s.last().1@))
    }
}

/// A key is in the implication map exactly when some entry holds it.
pub proof fn lemma_imp_map_dom(s: Seq<(String, Vec<String>)>, k: Seq<char>)
    ensures
        imp_map(s).contains_key(k) <==> exists|i: int|
            0 <= i < s.len() && (#[trigger] s[i]).0@ == k,
    decreases s.len(),
{
    if s.len() > 0 {
        lemma_imp_map_dom(s.drop_last(), k);
        if s.last().0@ == k {
            assert(s[s.len() - 1].0@ == k);
        } else {
            if exists|i: int| 0 <= i < s.drop_last().len() && (#[trigger] s.drop_last()[i]).0@
                == k {
                let i = choose|i: int|
                    0 <= i < s.drop_last().len() && (#[trigger] s.drop_last()[i]).0@ == k;
                assert(s[i].0@ == k);
            }
            if exists|i: int| 0 <= i < s.len() && (#[trigger] s[i]).0@ == k {
                let i = choose|i: int| 0 <= i < s.len() && (#[trigger] s[i]).0@ == k;
                assert(i < s.len() - 1);
                assert(s.drop_last()[i].0@ == k);
            }
        }
    }
}

/// With distinct keys, each entry gives the map's value at its key.
pub proof fn lemma_imp_map_index(s: Seq<(String, Vec<String>)>, i: int)
    requires
        nodup_imp_keys(s),
        0 <= i < s.len(),
    ensures
        imp_map(s).contains_key(s[i].0@),
        imp_map(s)[s[i].0@] == strs_set(s[i].1@),
    decreases s.len(),
{
    if i == s.len() - 1 {
    } else {
        assert(s.drop_last()[i] == s[i]);
        assert(nodup_imp_keys(s.drop_last())) by {
            assert(forall|a: int, b: int|
                0 <= a < b < s.drop_last().len() ==> (#[trigger] s.drop_last()[a]).0@ != (
                #[trigger] s.drop_last()[b]).0@);
        }
        lemma_imp_map_index(s.drop_last(), i);
        assert(s[i].0@ != s.last().0@);
    }
}

/// With distinct keys, replacing the entry at `j` by one with the same key
/// replaces the map's value at that key.
pub proof fn lemma_imp_map_update(s: Seq<(String, Vec<String>)>, j: int, e: (String, Vec<String>))
    requires
        nodup_imp_keys(s),
        0 <= j < s.len(),
        e.0@ == s[j].0@,
    ensures
        imp_map(s.update(j, e)) == imp_map(s).insert(s[j].0@, strs_set(e.1@)),
    decreases s.len(),
{
    let su = s.update(j, e);
    if j == s.len() - 1 {
        assert(su.drop_last() =~= s.drop_last());
        assert(su.last() == e);
    } else {
        assert(su.drop_last() =~= s.drop_last().update(j, e));
        assert(su.last() == s.last());
        assert(s.drop_last()[j] == s[j]);
        assert(nodup_imp_keys(s.drop_last())) by {
            assert(forall|a: int, b: int|
                0 <= a < b < s.drop_last().len() ==> (#[trigger] s.drop_last()[a]).0@ != (
                #[trigger] s.drop_last()[b]).0@);
        }
        lemma_imp_map_update(s.drop_last(), j, e);
        assert(s[j].0@ != s.last().0@);
        assert(imp_map(su) == imp_map(s.drop_last()).insert(s[j].0@, strs_set(e.1@)).insert(
            s.last().0@,
            strs_set(s.last().1@),
        ));
        assert(imp_map(s.drop_last()).insert(s[j].0@, strs_set(e.1@)).insert(
            s.last().0@,
            strs_set(s.last().1@),
        ) =~= imp_map(s).insert(s[j].0@, strs_set(e.1@)));
    }
}

/// The first entry holding `key`, if any.
fn imps_lookup(v: &Vec<(String, Vec<String>)>, key: &String) -> (r: Option<usize>)
    ensures
        match r {
            Some(j) => 0 <= j < v@.len() && v@[j as int].0@ == key@,
            None => forall|j: int| 0 <= j < v@.len() ==> (#[trigger] v@[j]).0@ != key@,
        },
{
    let mut i: usize = 0;
    while i < v.len()
        invariant
            i <= v@.len(),
            forall|j: int| 0 <= j < i ==> (#[trigger] v@[j]).0@ != key@,
        decreases v@.len() - i,
    {
        if v[i].0.eq(key) {
            return Some(i);
        }
        i = i + 1;
    }
    None
}

/// Whether some string of the list has this view.
fn strs_contains(v: &Vec<String>, s: &String) -> (r: bool)
    ensures
        r == strs_set(v@).contains(s@),
{
    let mut i: usize = 0;
    while i < v.len()
        invariant
            i <= v@.len(),
            forall|j: int| 0 <= j < i ==> (#[trigger] v@[j])@ != s@,
        decreases v@.len() - i,
    {
        if v[i].eq(s) {
            proof {
                assert(strs_view(v@)[i as int] == s@);
                assert(strs_view(v@).contains(s@));
            }
            return true;
        }
        i = i + 1;
    }
    proof {
        if strs_set(v@).contains(s@) {
            let j = choose|j: int| 0 <= j < strs_view(v@).len() && strs_view(v@)[j] == s@;
            assert(v@[j]@ == s@);
        }
    }
    false
}

/// The raw implication map of the active facts: each antecedent mapped to
/// the set of its consequents.
pub open spec fn imp_map_of(facts: Seq<TagFact>) -> Map<Seq<char>, Set<Seq<char>>>
    decreases facts.len(),
{
    if facts.len() == 0 {
        Map::empty()
    } else {
        let m = imp_map_of(facts.drop_last());
        let f = facts.last();
        if !fact_active(f) {
            m
        } else if m.contains_key(f.antecedent@) {
            m.insert(f.antecedent@, m[f.antecedent@].insert(f.consequent@))
        } else {
            m.insert(f.antecedent@, Set::empty().insert(f.consequent@))
        }
    }
}

/// Builds the raw implication map from raw implication facts, keeping
/// active facts only and grouping consequents by antecedent.
pub fn read_tag_implications(facts: &Vec<TagFact>) -> (r: Vec<(String, Vec<String>)>)
    ensures
        nodup_imp_keys(r@),
        nodup_imp_values(r@),
        imp_map(r@) == imp_map_of(facts@),
{
    let mut out: Vec<(String, Vec<String>)> = Vec::new();
    let mut i: usize = 0;
    while i < facts.len()
        invariant
            i <= facts@.len(),
            nodup_imp_keys(out@),
            nodup_imp_values(out@),
            imp_map(out@) == imp_map_of(facts@.subrange(0, i as int)),
        decreases facts@.len() - i,
    {
        let ghost pre = facts@.subrange(0, i as int);
        let ghost post = facts@.subrange(0, i as int + 1);
        proof {
            assert(post.drop_last() =~= pre);
            assert(post.last() == facts@[i as int]);
        }
        let active = fact_is_active(&facts[i]);
        if active {
            match imps_lookup(&out, &facts[i].antecedent) {
                Some(j) => {
                    proof {
                        lemma_imp_map_index(out@, j as int);
                    }
                    let ghost out_before = out@;
                    let mut e = out.remove(j);
                    let present = strs_contains(&e.1, &facts[i].consequent);
                    if !present {
                        e.1.push(facts[i].consequent.clone());
                    }
                    out.insert(j, e);
                    proof {
                        assert(out@ =~= out_before.update(j as int, out@[j as int]));
                        assert(out@[j as int].0@ == out_before[j as int].0@);
                        if !present {
                            assert(strs_view(out@[j as int].1@) =~= strs_view(
                                out_before[j as int].1@,
                            ).push(facts@[i as int].consequent@));
                            assert(strs_set(out@[j as int].1@) =~= strs_set(
                                out_before[j as int].1@,
                            ).insert(facts@[i as int].consequent@)) by {
                                assert forall|t: Seq<char>|
                                    strs_set(out@[j as int].1@).contains(t) implies strs_set(
                                    out_before[j as int].1@,
                                ).insert(facts@[i as int].consequent@).contains(t) by {
                                    let w = choose|w: int|
                                        0 <= w < strs_view(out@[j as int].1@).len() && strs_view(
                                            out@[j as int].1@,
                                        )[w] == t;
                                    if w < out_before[j as int].1@.len() {
                                        assert(strs_view(out_before[j as int].1@)[w] == t);
                                        assert(strs_view(out_before[j as int].1@).contains(t));
                                    }
                                }
                                assert forall|t: Seq<char>|
                                    strs_set(out_before[j as int].1@).insert(
                                        facts@[i as int].consequent@,
                                    ).contains(t) implies strs_set(out@[j as int].1@).contains(
                                    t,
                                ) by {
                                    if t == facts@[i as int].consequent@ {
                                        let w = strs_view(out@[j as int].1@).len() - 1;
                                        assert(strs_view(out@[j as int].1@)[w] == t);
                                        assert(strs_view(out@[j as int].1@).contains(t));
                                    } else {
                                        let w = choose|w: int|
                                            0 <= w < strs_view(out_before[j as int].1@).len()
                                                && strs_view(out_before[j as int].1@)[w] == t;
                                        assert(strs_view(out@[j as int].1@)[w] == t);
                                        assert(strs_view(out@[j as int].1@).contains(t));
                                    }
                                }
                            }
                        } else {
                            assert(out@[j as int] == out_before[j as int]);
                            assert(strs_set(out_before[j as int].1@).insert(
                                facts@[i as int].consequent@,
                            ) =~= strs_set(out_before[j as int].1@));
                        }
                        lemma_imp_map_update(out_before, j as int, out@[j as int]);
                        assert(imp_map(out@) =~= imp_map_of(post));
                        if !present {
                            assert forall|w: int| 0 <= w < out_before[j as int].1@.len() implies (
                            #[trigger] out_before[j as int].1@[w])@ != facts@[i as int].consequent@ by {
                                if out_before[j as int].1@[w]@ == facts@[i as int].consequent@ {
                                    assert(strs_view(out_before[j as int].1@)[w]
                                        == facts@[i as int].consequent@);
                                    assert(strs_view(out_before[j as int].1@).contains(
                                        facts@[i as int].consequent@,
                                    ));
                                }
                            }
                            assert(nodup_strs(out@[j as int].1@));
                        }
                        assert forall|w: int| 0 <= w < out@.len() implies nodup_strs(
                            (#[trigger] out@[w]).1@,
                        ) by {
                            if w != j {
                                assert(out@[w] == out_before[w]);
                            }
                        }
                    }
                },
                None => {
                    proof {
                        lemma_imp_map_dom(out@, facts@[i as int].antecedent@);
                    }
                    let a = facts[i].antecedent.clone();
                    let mut vs: Vec<String> = Vec::new();
                    vs.push(facts[i].consequent.clone());
                    let ghost out_before = out@;
                    out.push((a, vs));
                    proof {
                        assert(out@.drop_last() =~= out_before);
                        assert(strs_set(out@.last().1@) =~= Set::empty().insert(
                            facts@[i as int].consequent@,
                        )) by {
                            assert(strs_view(out@.last().1@).len() == 1);
                            assert(strs_view(out@.last().1@)[0] == facts@[i as int].consequent@);
                            assert forall|t: Seq<char>| strs_set(out@.last().1@).contains(
                                t,
                            ) implies t == facts@[i as int].consequent@ by {
                                let w = choose|w: int|
                                    0 <= w < strs_view(out@.last().1@).len() && strs_view(
                                        out@.last().1@,
                                    )[w] == t;
                            }
                            assert(strs_view(out@.last().1@).contains(
                                facts@[i as int].consequent@,
                            ));
                        }
                        assert(imp_map(out@) =~= imp_map_of(post));
                    }
                },
            }
        } else {
            proof {
                assert(imp_map_of(post) == imp_map_of(pre));
            }
        }
        i = i + 1;
    }
    proof {
        assert(facts@.subrange(0, facts@.len() as int) =~= facts@);
    }
    out
}

/// The canonical name of a tag: its alias target, or itself.
pub open spec fn canon_of(am: Map<Seq<char>, Seq<char>>, t: Seq<char>) -> Seq<char> {
    if am.contains_key(t) {
        am[t]
    } else {
        t
    }
}

/// The canonical names of a set of tags.
pub open spec fn canon_set(am: Map<Seq<char>, Seq<char>>, s: Set<Seq<char>>) -> Set<Seq<char>> {
    Set::new(|t: Seq<char>| exists|u: Seq<char>| #[trigger] s.contains(u) && canon_of(am, u) == t)
}

/// The implication map rewritten through the alias map: every antecedent
/// and consequent replaced by its canonical name, entries with one
/// canonical antecedent merged.
pub open spec fn canon_imp_map(
    am: Map<Seq<char>, Seq<char>>,
    im: Map<Seq<char>, Set<Seq<char>>>,
) -> Map<Seq<char>, Set<Seq<char>>> {
    Map::new(
        |k: Seq<char>| exists|k0: Seq<char>| #[trigger] im.contains_key(k0) && canon_of(am, k0)
            == k,
        |k: Seq<char>|
            Set::new(
                |t: Seq<char>|
                    exists|k0: Seq<char>, u: Seq<char>|
                        im.contains_key(k0) && canon_of(am, k0) == k && #[trigger] im[k0].contains(
                            u,
                        ) && canon_of(am, u) == t,
            ),
    )
}

/// Merging one canonical entry into an accumulated map: union with the set
/// already there, if any.
pub open spec fn merge_into(
    m: Map<Seq<char>, Set<Seq<char>>>,
    k: Seq<char>,
    vs: Set<Seq<char>>,
) -> Map<Seq<char>, Set<Seq<char>>> {
    if m.contains_key(k) {
        m.insert(k, m[k].union(vs))
    } else {
        m.insert(k, vs)
    }
}

/// Rewriting after adding one fresh raw entry merges that entry's
/// canonical image into the rewritten map.
pub proof fn lemma_canon_insert(
    am: Map<Seq<char>, Seq<char>>,
    im: Map<Seq<char>, Set<Seq<char>>>,
    k0: Seq<char>,
    s0: Set<Seq<char>>,
)
    requires
        !im.contains_key(k0),
    ensures
        canon_imp_map(am, im.insert(k0, s0)) == merge_into(
            canon_imp_map(am, im),
            canon_of(am, k0),
            canon_set(am, s0),
        ),
{
    let lhs = canon_imp_map(am, im.insert(k0, s0));
    let rhs = merge_into(canon_imp_map(am, im), canon_of(am, k0), canon_set(am, s0));
    let base = canon_imp_map(am, im);
    let ck = canon_of(am, k0);
    assert forall|k: Seq<char>| lhs.contains_key(k) implies rhs.contains_key(k) by {
        let w = choose|w: Seq<char>| #[trigger] im.insert(k0, s0).contains_key(w) && canon_of(
            am,
            w,
        ) == k;
        if w == k0 {
            assert(k == ck);
        } else {
            assert(im.contains_key(w));
            assert(base.contains_key(k));
        }
    }
    assert forall|k: Seq<char>| rhs.contains_key(k) implies lhs.contains_key(k) by {
        if k == ck {
            assert(im.insert(k0, s0).contains_key(k0) && canon_of(am, k0) == k);
        } else {
            assert(base.contains_key(k));
            let w = choose|w: Seq<char>| #[trigger] im.contains_key(w) && canon_of(am, w) == k;
            assert(im.insert(k0, s0).contains_key(w) && canon_of(am, w) == k);
        }
    }
    assert forall|k: Seq<char>| lhs.contains_key(k) implies lhs[k] =~= rhs[k] by {
        assert forall|t: Seq<char>| lhs[k].contains(t) implies rhs[k].contains(t) by {
            let (w, u) = choose|w: Seq<char>, u: Seq<char>|
                im.insert(k0, s0).contains_key(w) && canon_of(am, w) == k && #[trigger] im.insert(
                    k0,
                    s0,
                )[w].contains(u) && canon_of(am, u) == t;
            if w == k0 {
                assert(k == ck);
                assert(s0.contains(u));
                assert(canon_set(am, s0).contains(t));
                assert(rhs[k] == if base.contains_key(ck) {
                    base[ck].union(canon_set(am, s0))
                } else {
                    canon_set(am, s0)
                });
            } else {
                assert(im.contains_key(w) && im[w].contains(u));
                assert(base.contains_key(k));
                assert(base[k].contains(t));
                if k == ck {
                    assert(rhs[k] == base[ck].union(canon_set(am, s0)));
                } else {
                    assert(rhs[k] == base[k]);
                }
            }
        }
        assert forall|t: Seq<char>| rhs[k].contains(t) implies lhs[k].contains(t) by {
            if k == ck {
                if base.contains_key(ck) && base[ck].contains(t) {
                    let (w, u) = choose|w: Seq<char>, u: Seq<char>|
                        im.contains_key(w) && canon_of(am, w) == k && #[trigger] im[w].contains(u)
                            && canon_of(am, u) == t;
                    assert(im.insert(k0, s0).contains_key(w) && im.insert(k0, s0)[w].contains(u));
                } else {
                    assert(canon_set(am, s0).contains(t));
                    let u = choose|u: Seq<char>| #[trigger] s0.contains(u) && canon_of(am, u) == t;
                    assert(im.insert(k0, s0).contains_key(k0) && im.insert(k0, s0)[k0].contains(u));
                }
            } else {
                assert(rhs[k] == base[k]);
                let (w, u) = choose|w: Seq<char>, u: Seq<char>|
                    im.contains_key(w) && canon_of(am, w) == k && #[trigger] im[w].contains(u)
                        && canon_of(am, u) == t;
                assert(im.insert(k0, s0).contains_key(w) && im.insert(k0, s0)[w].contains(u));
            }
        }
    }
    assert(lhs =~~= rhs);
}

/// With distinct keys, removing the entry at `j` removes its key from the
/// map.
pub proof fn lemma_imp_map_remove(s: Seq<(String, Vec<String>)>, j: int)
    requires
        nodup_imp_keys(s),
        0 <= j < s.len(),
    ensures
        imp_map(s.remove(j)) == imp_map(s).remove(s[j].0@),
    decreases s.len(),
{
    let sr = s.remove(j);
    if j == s.len() - 1 {
        assert(sr =~= s.drop_last());
        lemma_imp_map_dom(sr, s[j].0@);
        assert(!imp_map(sr).contains_key(s[j].0@));
        assert(imp_map(s.drop_last()).insert(s.last().0@, strs_set(s.last().1@)).remove(s[j].0@)
            =~= imp_map(s.drop_last()));
    } else {
        assert(sr.drop_last() =~= s.drop_last().remove(j));
        assert(sr.last() == s.last());
        assert(s.drop_last()[j] == s[j]);
        assert(nodup_imp_keys(s.drop_last())) by {
            assert(forall|a: int, b: int|
                0 <= a < b < s.drop_last().len() ==> (#[trigger] s.drop_last()[a]).0@ != (
                #[trigger] s.drop_last()[b]).0@);
        }
        lemma_imp_map_remove(s.drop_last(), j);
        assert(s[j].0@ != s.last().0@);
        assert(imp_map(s).remove(s[j].0@) =~= imp_map(s.drop_last()).remove(s[j].0@).insert(
            s.last().0@,
            strs_set(s.last().1@),
        ));
    }
}

/// The canonical name of a tag, through the alias list.
fn apply_alias(aliases: &Vec<(String, String)>, tag: &String) -> (r: String)
    requires
        nodup_pair_keys(aliases@),
    ensures
        r@ == canon_of(assoc_map(aliases@), tag@),
{
    match pairs_lookup(aliases, tag) {
        Some(j) => {
            proof {
                lemma_assoc_map_index(aliases@, j as int);
            }
            aliases[j].1.clone()
        },
        None => {
            proof {
                lemma_assoc_map_dom(aliases@, tag@);
            }
            tag.clone()
        },
    }
}

/// Rewrites every implication antecedent and consequent through the alias
/// map, merging entries whose antecedents share one canonical name.
pub fn canonicalize_implications(
    aliases: &Vec<(String, String)>,
    imps: &Vec<(String, Vec<String>)>,
) -> (r: Vec<(String, Vec<String>)>)
    requires
        nodup_pair_keys(aliases@),
        nodup_imp_keys(imps@),
    ensures
        nodup_imp_keys(r@),
        nodup_imp_values(r@),
        imp_map(r@) == canon_imp_map(assoc_map(aliases@), imp_map(imps@)),
{
    let ghost am = assoc_map(aliases@);
    let mut out: Vec<(String, Vec<String>)> = Vec::new();
    let mut i: usize = 0;
    proof {
        assert(imps@.subrange(0, 0) =~= Seq::<(String, Vec<String>)>::empty());
        assert(imp_map(out@) =~~= canon_imp_map(am, imp_map(imps@.subrange(0, 0))));
    }
    while i < imps.len()
        invariant
            i <= imps@.len(),
            nodup_pair_keys(aliases@),
            nodup_imp_keys(imps@),
            am == assoc_map(aliases@),
            nodup_imp_keys(out@),
            nodup_imp_values(out@),
            imp_map(out@) == canon_imp_map(am, imp_map(imps@.subrange(0, i as int))),
        decreases imps@.len() - i,
    {
        let ghost pre = imps@.subrange(0, i as int);
        let ghost post = imps@.subrange(0, i as int + 1);
        let ghost base = imp_map(out@);
        proof {
            assert(post.drop_last() =~= pre);
            assert(post.last() == imps@[i as int]);
            assert(!imp_map(pre).contains_key(imps@[i as int].0@)) by {
                lemma_imp_map_dom(pre, imps@[i as int].0@);
                assert(forall|w: int| 0 <= w < pre.len() ==> pre[w] == imps@[w]);
            }
            lemma_canon_insert(am, imp_map(pre), imps@[i as int].0@, strs_set(imps@[i as int].1@));
        }
        let ck = apply_alias(aliases, &imps[i].0);
        let ghost target0 = if base.contains_key(ck@) {
            base[ck@]
        } else {
            Set::<Seq<char>>::empty()
        };
        let mut vs: Vec<String>;
        let key: String;
        match imps_lookup(&out, &ck) {
            Some(j) => {
                proof {
                    lemma_imp_map_index(out@, j as int);
                    lemma_imp_map_remove(out@, j as int);
                }
                let ghost out_with = out@;
                let entry = out.remove(j);
                key = entry.0;
                vs = entry.1;
                proof {
                    assert(imp_map(out@) == base.remove(ck@));
                    assert(strs_set(vs@) == target0);
                    assert(forall|a: int, b: int|
                        0 <= a < b < out@.len() ==> (#[trigger] out@[a]).0@ != (
                        #[trigger] out@[b]).0@) by {
                        assert(forall|w: int|
                            0 <= w < out@.len() ==> out@[w] == if w < j {
                                out_with[w]
                            } else {
                                out_with[w + 1]
                            });
                    }
                    assert(forall|w: int| 0 <= w < out@.len() ==> nodup_strs(
                        (#[trigger] out@[w]).1@)) by {
                        assert(forall|w: int|
                            0 <= w < out@.len() ==> out@[w] == if w < j {
                                out_with[w]
                            } else {
                                out_with[w + 1]
                            });
                    }
                    assert(forall|w: int| 0 <= w < out@.len() ==> (#[trigger] out@[w]).0@ != ck@)
                        by {
                        assert(forall|w: int|
                            0 <= w < out@.len() ==> out@[w] == if w < j {
                                out_with[w]
                            } else {
                                out_with[w + 1]
                            });
                    }
                }
            },
            None => {
                proof {
                    lemma_imp_map_dom(out@, ck@);
                    assert(!base.contains_key(ck@));
                    assert(base.remove(ck@) =~~= base);
                }
                key = ck;
                vs = Vec::new();
                proof {
                    assert(strs_view(vs@) =~= Seq::<Seq<char>>::empty());
                    assert(strs_set(vs@) =~= Set::<Seq<char>>::empty());
                }
            },
        }
        let ghost out_removed = out@;
        let mut w: usize = 0;
        while w < imps[i].1.len()
            invariant
                nodup_pair_keys(aliases@),
                am == assoc_map(aliases@),
                i < imps@.len(),
                w <= imps@[i as int].1@.len(),
                key@ == canon_of(am, imps@[i as int].0@),
                nodup_strs(vs@),
                out@ == out_removed,
                strs_set(vs@) =~= target0.union(
                    canon_set(am, strs_set(imps@[i as int].1@.subrange(0, w as int))),
                ),
            decreases imps@[i as int].1@.len() - w,
        {
            let cv = apply_alias(aliases, &imps[i].1[w]);
            let ghost vals_pre = imps@[i as int].1@.subrange(0, w as int);
            let ghost vals_post = imps@[i as int].1@.subrange(0, w as int + 1);
            proof {
                assert(vals_post.drop_last() =~= vals_pre);
                assert(vals_post.last() == imps@[i as int].1@[w as int]);
                assert(strs_set(vals_post) =~= strs_set(vals_pre).insert(
                    imps@[i as int].1@[w as int]@,
                )) by {
                    assert(strs_view(vals_post) =~= strs_view(vals_pre).push(
                        imps@[i as int].1@[w as int]@,
                    ));
                    assert forall|t: Seq<char>| strs_set(vals_post).contains(t) implies strs_set(
                        vals_pre,
                    ).insert(imps@[i as int].1@[w as int]@).contains(t) by {
                        let z = choose|z: int|
                            0 <= z < strs_view(vals_post).len() && strs_view(vals_post)[z] == t;
                        if z < vals_pre.len() {
                            assert(strs_view(vals_pre)[z] == t);
                            assert(strs_view(vals_pre).contains(t));
                        }
                    }
                    assert forall|t: Seq<char>| strs_set(vals_pre).insert(
                        imps@[i as int].1@[w as int]@,
                    ).contains(t) implies strs_set(vals_post).contains(t) by {
                        if t == imps@[i as int].1@[w as int]@ {
                            assert(strs_view(vals_post)[vals_post.len() - 1] == t);
                            assert(strs_view(vals_post).contains(t));
                        } else {
                            let z = choose|z: int|
                                0 <= z < strs_view(vals_pre).len() && strs_view(vals_pre)[z] == t;
                            assert(strs_view(vals_post)[z] == t);
                            assert(strs_view(vals_post).contains(t));
                        }
                    }
                }
                assert(canon_set(am, strs_set(vals_post)) =~= canon_set(am, strs_set(vals_pre)).insert(
                    cv@,
                )) by {
                    assert forall|t: Seq<char>| canon_set(am, strs_set(vals_post)).contains(
                        t,
                    ) implies canon_set(am, strs_set(vals_pre)).insert(cv@).contains(t) by {
                        let u = choose|u: Seq<char>| #[trigger] strs_set(vals_post).contains(u)
                            && canon_of(am, u) == t;
                        if u != imps@[i as int].1@[w as int]@ {
                            assert(strs_set(vals_pre).contains(u));
                        }
                    }
                    assert forall|t: Seq<char>| canon_set(am, strs_set(vals_pre)).insert(
                        cv@,
                    ).contains(t) implies canon_set(am, strs_set(vals_post)).contains(t) by {
                        if t == cv@ {
                            assert(strs_set(vals_post).contains(imps@[i as int].1@[w as int]@));
                        } else {
                            let u = choose|u: Seq<char>| #[trigger] strs_set(vals_pre).contains(u)
                                && canon_of(am, u) == t;
                            assert(strs_set(vals_post).contains(u));
                        }
                    }
                }
            }
            let present = strs_contains(&vs, &cv);
            if !present {
                let ghost vs_before = vs@;
                vs.push(cv);
                proof {
                    assert(strs_view(vs@) =~= strs_view(vs_before).push(vs@.last()@));
                    assert forall|z: int| 0 <= z < vs_before.len() implies (
                    #[trigger] vs_before[z])@ != vs@.last()@ by {
                        if vs_before[z]@ == vs@.last()@ {
                            assert(strs_view(vs_before)[z] == vs@.last()@);
                            assert(strs_view(vs_before).contains(vs@.last()@));
                        }
                    }
                    assert(nodup_strs(vs@));
                    assert(strs_set(vs@) =~= strs_set(vs_before).insert(vs@.last()@)) by {
                        assert forall|t: Seq<char>| strs_set(vs@).contains(t) implies strs_set(
                            vs_before,
                        ).insert(vs@.last()@).contains(t) by {
                            let z = choose|z: int|
                                0 <= z < strs_view(vs@).len() && strs_view(vs@)[z] == t;
                            if z < vs_before.len() {
                                assert(strs_view(vs_before)[z] == t);
                                assert(strs_view(vs_before).contains(t));
                            }
                        }
                        assert forall|t: Seq<char>| strs_set(vs_before).insert(
                            vs@.last()@,
                        ).contains(t) implies strs_set(vs@).contains(t) by {
                            if t == vs@.last()@ {
                                assert(strs_view(vs@)[vs@.len() - 1] == t);
                                assert(strs_view(vs@).contains(t));
                            } else {
                                let z = choose|z: int|
                                    0 <= z < strs_view(vs_before).len() && strs_view(vs_before)[z]
                                        == t;
                                assert(strs_view(vs@)[z] == t);
                                assert(strs_view(vs@).contains(t));
                            }
                        }
                    }
                }
            } else {
                proof {
                    assert(strs_set(vs@).insert(cv@) =~= strs_set(vs@));
                }
            }
            w = w + 1;
        }
        proof {
            assert(imps@[i as int].1@.subrange(0, imps@[i as int].1@.len() as int)
                =~= imps@[i as int].1@);
        }
        let ghost out_before_push = out@;
        out.push((key, vs));
        proof {
            assert(out@.drop_last() =~= out_before_push);
            assert(imp_map(out@) == imp_map(out_removed).insert(
                canon_of(am, imps@[i as int].0@),
                strs_set(out@.last().1@),
            ));
            assert(imp_map(out@) =~~= merge_into(
                base,
                canon_of(am, imps@[i as int].0@),
                canon_set(am, strs_set(imps@[i as int].1@)),
            ));
            assert(imp_map(out@) =~~= canon_imp_map(am, imp_map(post)));
        }
        i = i + 1;
    }
    proof {
        assert(imps@.subrange(0, imps@.len() as int) =~= imps@);
    }
    out
}

/// No tag's implied set can be expanded further through the map itself:
/// the closure fixpoint.
pub open spec fn implied_closed(m: Map<Seq<char>, Set<Seq<char>>>) -> bool {
    forall|k: Seq<char>, t: Seq<char>|
        m.contains_key(k) && #[trigger] m[k].contains(t) && m.contains_key(t) ==> m[t].subset_of(
            m[k],
        )
}

/// `to` is reachable from `from` along implication edges, within `n`
/// intermediate hops.
pub open spec fn reaches_in(
    m: Map<Seq<char>, Set<Seq<char>>>,
    from: Seq<char>,
    to: Seq<char>,
    n: nat,
) -> bool
    decreases n,
{
    m.contains_key(from) && (m[from].contains(to) || (n > 0 && exists|mid: Seq<char>|
        #[trigger] m[from].contains(mid) && reaches_in(m, mid, to, (n - 1) as nat)))
}

/// `to` is reachable from `from` along any chain of implication edges.
pub open spec fn reaches(m: Map<Seq<char>, Set<Seq<char>>>, from: Seq<char>, to: Seq<char>) -> bool {
    exists|n: nat| reaches_in(m, from, to, n)
}

/// A reachability witness stays valid with a larger hop bound.
pub proof fn lemma_reaches_in_mono(
    m: Map<Seq<char>, Set<Seq<char>>>,
    from: Seq<char>,
    to: Seq<char>,
    n1: nat,
    n2: nat,
)
    requires
        reaches_in(m, from, to, n1),
        n1 <= n2,
    ensures
        reaches_in(m, from, to, n2),
    decreases n1,
{
    if !m[from].contains(to) {
        let mid = choose|mid: Seq<char>| #[trigger] m[from].contains(mid) && reaches_in(
            m,
            mid,
            to,
            (n1 - 1) as nat,
        );
        lemma_reaches_in_mono(m, mid, to, (n1 - 1) as nat, (n2 - 1) as nat);
    }
}

/// Reachability is transitive.
pub proof fn lemma_reaches_trans(
    m: Map<Seq<char>, Set<Seq<char>>>,
    a: Seq<char>,
    b: Seq<char>,
    c: Seq<char>,
)
    requires
        reaches(m, a, b),
        reaches(m, b, c),
    ensures
        reaches(m, a, c),
{
    let n1 = choose|n1: nat| reaches_in(m, a, b, n1);
    let n2 = choose|n2: nat| reaches_in(m, b, c, n2);
    lemma_reaches_in_trans(m, a, b, c, n1, n2);
    assert(reaches_in(m, a, c, (n1 + n2 + 1) as nat));
}

proof fn lemma_reaches_in_trans(
    m: Map<Seq<char>, Set<Seq<char>>>,
    a: Seq<char>,
    b: Seq<char>,
    c: Seq<char>,
    n1: nat,
    n2: nat,
)
    requires
        reaches_in(m, a, b, n1),
        reaches_in(m, b, c, n2),
    ensures
        reaches_in(m, a, c, (n1 + n2 + 1) as nat),
    decreases n1,
{
    if m[a].contains(b) {
        assert(m[a].contains(b) && reaches_in(m, b, c, (n1 + n2) as nat)) by {
            lemma_reaches_in_mono(m, b, c, n2, (n1 + n2) as nat);
        }
    } else {
        let mid = choose|mid: Seq<char>| #[trigger] m[a].contains(mid) && reaches_in(
            m,
            mid,
            b,
            (n1 - 1) as nat,
        );
        lemma_reaches_in_trans(m, mid, b, c, (n1 - 1) as nat, n2);
        assert(m[a].contains(mid) && reaches_in(m, mid, c, (n1 + n2) as nat));
    }
}

/// Law: a map that contains its direct edges and is closed holds
/// everything reachable — no chain escapes a saturated map.
pub proof fn lemma_closed_contains_reachable(
    m0: Map<Seq<char>, Set<Seq<char>>>,
    m: Map<Seq<char>, Set<Seq<char>>>,
    from: Seq<char>,
    to: Seq<char>,
)
    requires
        forall|k: Seq<char>| #[trigger] m0.contains_key(k) <==> m.contains_key(k),
        forall|k: Seq<char>| m0.contains_key(k) ==> (#[trigger] m0[k]).subset_of(m[k]),
        implied_closed(m),
        reaches(m0, from, to),
    ensures
        m.contains_key(from),
        m[from].contains(to),
{
    let n = choose|n: nat| reaches_in(m0, from, to, n);
    lemma_closed_contains_reachable_in(m0, m, from, to, n);
}

proof fn lemma_closed_contains_reachable_in(
    m0: Map<Seq<char>, Set<Seq<char>>>,
    m: Map<Seq<char>, Set<Seq<char>>>,
    from: Seq<char>,
    to: Seq<char>,
    n: nat,
)
    requires
        forall|k: Seq<char>| #[trigger] m0.contains_key(k) <==> m.contains_key(k),
        forall|k: Seq<char>| m0.contains_key(k) ==> (#[trigger] m0[k]).subset_of(m[k]),
        implied_closed(m),
        reaches_in(m0, from, to, n),
    ensures
        m.contains_key(from),
        m[from].contains(to),
    decreases n,
{
    if m0[from].contains(to) {
        assert(m[from].contains(to));
    } else {
        let mid = choose|mid: Seq<char>| #[trigger] m0[from].contains(mid) && reaches_in(
            m0,
            mid,
            to,
            (n - 1) as nat,
        );
        lemma_closed_contains_reachable_in(m0, m, mid, to, (n - 1) as nat);
        assert(m[from].contains(mid));
        assert(m[mid].subset_of(m[from]));
    }
}

/// The total number of values held across all entries.
pub open spec fn total_values_len(s: Seq<(String, Vec<String>)>) -> nat
    decreases s.len(),
{
    if s.len() == 0 {
        0
    } else {
        total_values_len(s.drop_last()) + s.last().1@.len()
    }
}

proof fn lemma_total_update(s: Seq<(String, Vec<String>)>, j: int, e: (String, Vec<String>))
    requires
        0 <= j < s.len(),
    ensures
        total_values_len(s.update(j, e)) + s[j].1@.len() == total_values_len(s) + e.1@.len(),
    decreases s.len(),
{
    let su = s.update(j, e);
    if j == s.len() - 1 {
        assert(su.drop_last() =~= s.drop_last());
        assert(su.last() == e);
    } else {
        assert(su.drop_last() =~= s.drop_last().update(j, e));
        assert(su.last() == s.last());
        assert(s.drop_last()[j] == s[j]);
        lemma_total_update(s.drop_last(), j, e);
    }
}

proof fn lemma_total_le(s: Seq<(String, Vec<String>)>, b: nat)
    requires
        forall|e: int| 0 <= e < s.len() ==> (#[trigger] s[e]).1@.len() <= b,
    ensures
        total_values_len(s) <= s.len() * b,
    decreases s.len(),
{
    if s.len() > 0 {
        assert(forall|e: int|
            0 <= e < s.drop_last().len() ==> (#[trigger] s.drop_last()[e]).1@.len() <= b);
        lemma_total_le(s.drop_last(), b);
        assert(s.last() == s[s.len() - 1]);
        assert((s.len() - 1) * b + b == s.len() as int * b) by (nonlinear_arith);
    }
}

proof fn lemma_entry_len_bound(vals: Seq<String>, uni: Set<Seq<char>>)
    requires
        nodup_strs(vals),
        uni.finite(),
        forall|z: int| 0 <= z < vals.len() ==> uni.contains((#[trigger] vals[z])@),
    ensures
        vals.len() <= uni.len(),
{
    assert(strs_view(vals).no_duplicates());
    strs_view(vals).unique_seq_to_set();
    assert(strs_set(vals).subset_of(uni)) by {
        assert forall|t: Seq<char>| strs_set(vals).contains(t) implies uni.contains(t) by {
            let z = choose|z: int| 0 <= z < strs_view(vals).len() && strs_view(vals)[z] == t;
            assert(vals[z]@ == t);
        }
    }
    vstd::set_lib::lemma_len_subset(strs_set(vals), uni);
}

/// Whether the entry at `e` can gain nothing from the entries its values
/// name: the per-entry closure condition.
pub open spec fn entry_closed(m: Seq<(String, Vec<String>)>, e: int) -> bool {
    forall|j: int, z: int|
        0 <= j < m.len() && 0 <= z < m[e].1@.len() && (#[trigger] m[j]).0@ == (
        #[trigger] m[e].1@[z])@ ==> strs_set(m[j].1@).subset_of(strs_set(m[e].1@))
}

/// Every entry's values are sound: reachable from its key in `m0`.
pub open spec fn entries_sound(
    m: Seq<(String, Vec<String>)>,
    m0: Map<Seq<char>, Set<Seq<char>>>,
) -> bool {
    forall|e: int, t: Seq<char>|
        0 <= e < m.len() && #[trigger] strs_set(m[e].1@).contains(t) ==> reaches(m0, m[e].0@, t)
}

/// Facts about pushing one string onto a list, at the view level.
proof fn lemma_strs_push(vals: Seq<String>, s: String)
    ensures
        strs_view(vals.push(s)) =~= strs_view(vals).push(s@),
        strs_set(vals.push(s)) =~= strs_set(vals).insert(s@),
        (!strs_set(vals).contains(s@) && nodup_strs(vals)) ==> nodup_strs(vals.push(s)),
{
    assert(strs_view(vals.push(s)) =~= strs_view(vals).push(s@));
    assert forall|t: Seq<char>| strs_set(vals.push(s)).contains(t) implies strs_set(vals).insert(
        s@,
    ).contains(t) by {
        let w = choose|w: int|
            0 <= w < strs_view(vals.push(s)).len() && strs_view(vals.push(s))[w] == t;
        if w < vals.len() {
            assert(strs_view(vals)[w] == t);
            assert(strs_view(vals).contains(t));
        }
    }
    assert forall|t: Seq<char>| strs_set(vals).insert(s@).contains(t) implies strs_set(
        vals.push(s),
    ).contains(t) by {
        if t == s@ {
            assert(strs_view(vals.push(s))[vals.len() as int] == t);
            assert(strs_view(vals.push(s)).contains(t));
        } else {
            let w = choose|w: int| 0 <= w < strs_view(vals).len() && strs_view(vals)[w] == t;
            assert(strs_view(vals.push(s))[w] == t);
            assert(strs_view(vals.push(s)).contains(t));
        }
    }
    if !strs_set(vals).contains(s@) && nodup_strs(vals) {
        assert forall|z: int| 0 <= z < vals.len() implies (#[trigger] vals[z])@ != s@ by {
            if vals[z]@ == s@ {
                assert(strs_view(vals)[z] == s@);
                assert(strs_view(vals).contains(s@));
            }
        }
        assert(nodup_strs(vals.push(s)));
    }
}

/// Facts about concatenating two string lists, at the view level.
proof fn lemma_strs_concat(a: Seq<String>, b: Seq<String>)
    ensures
        strs_view(a + b) =~= strs_view(a) + strs_view(b),
        strs_set(a + b) =~= strs_set(a).union(strs_set(b)),
        (nodup_strs(a) && nodup_strs(b) && (forall|z: int|
            0 <= z < b.len() ==> !strs_set(a).contains((#[trigger] b[z])@))) ==> nodup_strs(a + b),
{
    assert(strs_view(a + b) =~= strs_view(a) + strs_view(b));
    vstd::seq_lib::seq_to_set_distributes_over_add(strs_view(a), strs_view(b));
    assert(strs_set(a + b) =~= strs_set(a).union(strs_set(b)));
    if nodup_strs(a) && nodup_strs(b) && (forall|z: int|
        0 <= z < b.len() ==> !strs_set(a).contains((#[trigger] b[z])@)) {
        assert forall|i: int, j: int| 0 <= i < j < (a + b).len() implies ((a + b)[i])@ != ((a
            + b)[j])@ by {
            if i < a.len() && j >= a.len() {
                assert((a + b)[i] == a[i]);
                assert((a + b)[j] == b[j - a.len()]);
                if a[i]@ == b[j - a.len()]@ {
                    assert(strs_view(a)[i] == b[j - a.len()]@);
                    assert(strs_set(a).contains(b[j - a.len()]@));
                }
            } else if i < a.len() {
                assert((a + b)[i] == a[i] && (a + b)[j] == a[j]);
            } else {
                assert((a + b)[i] == b[i - a.len()] && (a + b)[j] == b[j - a.len()]);
            }
        }
        assert(nodup_strs(a + b));
    }
}

/// A string of the list is in its view set.
proof fn lemma_strs_mem(vals: Seq<String>, z: int)
    requires
        0 <= z < vals.len(),
    ensures
        strs_set(vals).contains(vals[z]@),
{
    assert(strs_view(vals)[z] == vals[z]@);
    assert(strs_view(vals).contains(vals[z]@));
}

/// A view in the set comes from some string of the list.
proof fn lemma_strs_mem_inv(vals: Seq<String>, t: Seq<char>)
    requires
        strs_set(vals).contains(t),
    ensures
        exists|z: int| 0 <= z < vals.len() && (#[trigger] vals[z])@ == t,
{
    let w = choose|w: int| 0 <= w < strs_view(vals).len() && strs_view(vals)[w] == t;
    assert(vals[w]@ == t);
}

/// The structural facts the closure loop maintains: entry keys and count
/// unchanged, values only grown, every value drawn from the universe, and
/// every value reachable from its entry's key in the input relation.
pub open spec fn closure_inv(
    m: Seq<(String, Vec<String>)>,
    orig: Seq<(String, Vec<String>)>,
    m0: Map<Seq<char>, Set<Seq<char>>>,
    uni: Set<Seq<char>>,
) -> bool {
    &&& m.len() == orig.len()
    &&& nodup_imp_keys(m)
    &&& nodup_imp_values(m)
    &&& forall|e: int| 0 <= e < m.len() ==> (#[trigger] m[e]).0@ == orig[e].0@
    &&& forall|e: int|
        0 <= e < m.len() ==> strs_set(orig[e].1@).subset_of(strs_set((#[trigger] m[e]).1@))
    &&& forall|e: int, z: int|
        0 <= e < m.len() && 0 <= z < m[e].1@.len() ==> uni.contains((#[trigger] m[e].1@[z])@)
    &&& entries_sound(m, m0)
}

/// Expands every implied set to its transitive closure: repeatedly unions
/// in the implied sets of current members, keeping only genuinely new
/// additions, until a full pass adds nothing. Terminates on cyclic input
/// too, because a pass can only add names from the finite universe of
/// value names, so the relation saturates.
pub fn close_implications(imps: Vec<(String, Vec<String>)>) -> (r: Vec<(String, Vec<String>)>)
    requires
        nodup_imp_keys(imps@),
        nodup_imp_values(imps@),
    ensures
        nodup_imp_keys(r@),
        nodup_imp_values(r@),
        r@.len() == imps@.len(),
        forall|e: int| 0 <= e < r@.len() ==> (#[trigger] r@[e]).0@ == imps@[e].0@,
        forall|e: int|
            0 <= e < r@.len() ==> strs_set(imps@[e].1@).subset_of(
                strs_set((#[trigger] r@[e]).1@),
            ),
        implied_closed(imp_map(r@)),
        entries_sound(r@, imp_map(imps@)),
{
    let ghost m0 = imp_map(imps@);
    let ghost orig = imps@;

    let mut uvec: Vec<String> = Vec::new();
    let mut e0: usize = 0;
    while e0 < imps.len()
        invariant
            e0 <= imps@.len(),
            forall|e: int, z: int|
                0 <= e < e0 && 0 <= z < imps@[e].1@.len() ==> strs_set(uvec@).contains(
                    (#[trigger] imps@[e].1@[z])@,
                ),
        decreases imps@.len() - e0,
    {
        let mut z0: usize = 0;
        while z0 < imps[e0].1.len()
            invariant
                e0 < imps@.len(),
                z0 <= imps@[e0 as int].1@.len(),
                forall|e: int, z: int|
                    0 <= e < e0 && 0 <= z < imps@[e].1@.len() ==> strs_set(uvec@).contains(
                        (#[trigger] imps@[e].1@[z])@,
                    ),
                forall|z: int|
                    0 <= z < z0 ==> strs_set(uvec@).contains((#[trigger] imps@[e0 as int].1@[z])@),
            decreases imps@[e0 as int].1@.len() - z0,
        {
            let ghost uvec_before = uvec@;
            uvec.push(imps[e0].1[z0].clone());
            proof {
                lemma_strs_push(uvec_before, uvec@.last());
                assert(uvec@ == uvec_before.push(uvec@.last()));
                assert(strs_set(uvec@).contains(imps@[e0 as int].1@[z0 as int]@));
            }
            z0 = z0 + 1;
        }
        e0 = e0 + 1;
    }
    let ghost uni = strs_set(uvec@);
    proof {
        vstd::seq_lib::seq_to_set_is_finite(strs_view(uvec@));
        assert(closure_inv(orig, orig, m0, uni)) by {
            assert forall|e: int, t: Seq<char>|
                0 <= e < orig.len() && #[trigger] strs_set(orig[e].1@).contains(t) implies reaches(
                m0,
                orig[e].0@,
                t,
            ) by {
                lemma_imp_map_dom(orig, orig[e].0@);
                lemma_imp_map_index(orig, e);
                assert(reaches_in(m0, orig[e].0@, t, 0));
            }
        }
        assert(total_values_len(orig) <= orig.len() * uni.len()) by {
            assert forall|e: int| 0 <= e < orig.len() implies (#[trigger] orig[e]).1@.len()
                <= uni.len() by {
                lemma_entry_len_bound(orig[e].1@, uni);
            }
            lemma_total_le(orig, uni.len());
        }
    }
    let mut m = imps;
    let mut changed = true;
    while changed
        invariant
            uni.finite(),
            closure_inv(m@, orig, m0, uni),
            total_values_len(m@) <= orig.len() * uni.len(),
            !changed ==> (forall|e: int| 0 <= e < m@.len() ==> entry_closed(m@, e)),
        decreases orig.len() * uni.len() - total_values_len(m@), (if changed {
            1int
        } else {
            0int
        }),
    {
        changed = false;
        let ghost st = m@;
        let mut i: usize = 0;
        while i < m.len()
            invariant
                uni.finite(),
                closure_inv(m@, orig, m0, uni),
                i <= m@.len(),
                total_values_len(st) <= total_values_len(m@),
                total_values_len(m@) <= orig.len() * uni.len(),
                !changed ==> m@ == st && (forall|e: int| 0 <= e < i ==> entry_closed(m@, e)),
                changed ==> total_values_len(m@) > total_values_len(st),
            decreases m@.len() - i,
        {
            let mut additions: Vec<String> = Vec::new();
            let mut z: usize = 0;
            while z < m[i].1.len()
                invariant
                    uni.finite(),
                    closure_inv(m@, orig, m0, uni),
                    i < m@.len(),
                    z <= m@[i as int].1@.len(),
                    nodup_strs(additions@),
                    forall|a: int|
                        0 <= a < additions@.len() ==> !strs_set(m@[i as int].1@).contains(
                            (#[trigger] additions@[a])@,
                        ),
                    forall|a: int|
                        0 <= a < additions@.len() ==> uni.contains((#[trigger] additions@[a])@),
                    forall|a: int|
                        0 <= a < additions@.len() ==> reaches(
                            m0,
                            m@[i as int].0@,
                            (#[trigger] additions@[a])@,
                        ),
                    forall|z2: int, j: int|
                        0 <= z2 < z && 0 <= j < m@.len() && (#[trigger] m@[j]).0@ == (
                        #[trigger] m@[i as int].1@[z2])@ ==> strs_set(m@[j].1@).subset_of(
                            strs_set(m@[i as int].1@).union(strs_set(additions@)),
                        ),
                decreases m@[i as int].1@.len() - z,
            {
                match imps_lookup(&m, &m[i].1[z]) {
                    Some(j) => {
                        let mut y: usize = 0;
                        while y < m[j].1.len()
                            invariant
                                uni.finite(),
                                closure_inv(m@, orig, m0, uni),
                                i < m@.len(),
                                j < m@.len(),
                                z < m@[i as int].1@.len(),
                                m@[j as int].0@ == m@[i as int].1@[z as int]@,
                                y <= m@[j as int].1@.len(),
                                nodup_strs(additions@),
                                forall|a: int|
                                    0 <= a < additions@.len() ==> !strs_set(
                                        m@[i as int].1@,
                                    ).contains((#[trigger] additions@[a])@),
                                forall|a: int|
                                    0 <= a < additions@.len() ==> uni.contains(
                                        (#[trigger] additions@[a])@,
                                    ),
                                forall|a: int|
                                    0 <= a < additions@.len() ==> reaches(
                                        m0,
                                        m@[i as int].0@,
                                        (#[trigger] additions@[a])@,
                                    ),
                                forall|z2: int, j2: int|
                                    0 <= z2 < z && 0 <= j2 < m@.len() && (#[trigger] m@[j2]).0@ == (
                                    #[trigger] m@[i as int].1@[z2])@ ==> strs_set(
                                        m@[j2].1@,
                                    ).subset_of(
                                        strs_set(m@[i as int].1@).union(strs_set(additions@)),
                                    ),
                                forall|y2: int|
                                    0 <= y2 < y ==> strs_set(m@[i as int].1@).union(
                                        strs_set(additions@),
                                    ).contains((#[trigger] m@[j as int].1@[y2])@),
                            decreases m@[j as int].1@.len() - y,
                        {
                            let in_vals = strs_contains(&m[i].1, &m[j].1[y]);
                            let in_adds = strs_contains(&additions, &m[j].1[y]);
                            if !in_vals && !in_adds {
                                let ghost adds_before = additions@;
                                let ghost u = m@[j as int].1@[y as int]@;
                                additions.push(m[j].1[y].clone());
                                proof {
                                    assert(additions@ == adds_before.push(additions@.last()));
                                    assert(additions@.last()@ == u);
                                    lemma_strs_push(adds_before, additions@.last());
                                    assert(reaches(m0, m@[i as int].0@, u)) by {
                                        lemma_strs_mem(m@[i as int].1@, z as int);
                                        assert(strs_set(m@[i as int].1@).contains(
                                            m@[i as int].1@[z as int]@,
                                        ));
                                        assert(reaches(m0, m@[i as int].0@, m@[i as int].1@[z as int]@));
                                        lemma_strs_mem(m@[j as int].1@, y as int);
                                        assert(reaches(m0, m@[j as int].0@, u));
                                        lemma_reaches_trans(
                                            m0,
                                            m@[i as int].0@,
                                            m@[i as int].1@[z as int]@,
                                            u,
                                        );
                                    }
                                }
                            } else {
                                proof {
                                    let ghost u = m@[j as int].1@[y as int]@;
                                    if in_vals {
                                        assert(strs_set(m@[i as int].1@).contains(u));
                                    } else {
                                        assert(strs_set(additions@).contains(u));
                                    }
                                }
                            }
                            y = y + 1;
                        }
                        proof {
                            assert forall|t: Seq<char>| strs_set(m@[j as int].1@).contains(
                                t,
                            ) implies strs_set(m@[i as int].1@).union(strs_set(additions@)).contains(
                                t,
                            ) by {
                                lemma_strs_mem_inv(m@[j as int].1@, t);
                            }
                            assert forall|j2: int|
                                0 <= j2 < m@.len() && (#[trigger] m@[j2]).0@
                                    == m@[i as int].1@[z as int]@ implies strs_set(
                                m@[j2].1@,
                            ).subset_of(strs_set(m@[i as int].1@).union(strs_set(additions@))) by {
                                assert(j2 == j) by {
                                    if j2 != j {
                                        assert(m@[j2].0@ != m@[j as int].0@);
                                    }
                                }
                            }
                        }
                    },
                    None => {
                        proof {
                            assert forall|j2: int|
                                0 <= j2 < m@.len() && (#[trigger] m@[j2]).0@
                                    == m@[i as int].1@[z as int]@ implies strs_set(
                                m@[j2].1@,
                            ).subset_of(strs_set(m@[i as int].1@).union(strs_set(additions@))) by {
                            }
                        }
                    },
                }
                z = z + 1;
            }
            if additions.len() > 0 {
                changed = true;
                let ghost m_before = m@;
                let ghost adds = additions@;
                let ghost old_vals = m@[i as int].1@;
                let mut entry = m.remove(i);
                entry.1.append(&mut additions);
                m.insert(i, entry);
                proof {
                    assert(m@ =~= m_before.update(i as int, m@[i as int]));
                    assert(m@[i as int].0@ == m_before[i as int].0@);
                    assert(m@[i as int].1@ =~= old_vals + adds);
                    lemma_strs_concat(old_vals, adds);
                    assert(nodup_strs(m@[i as int].1@)) by {
                        assert(nodup_strs(old_vals + adds));
                    }
                    assert(strs_set(m@[i as int].1@) =~= strs_set(old_vals).union(strs_set(adds)));
                    lemma_total_update(m_before, i as int, m@[i as int]);
                    assert(m@[i as int].1@.len() == old_vals.len() + adds.len());
                    assert(total_values_len(m@) == total_values_len(m_before) + adds.len());
                    assert(closure_inv(m@, orig, m0, uni)) by {
                        assert forall|e: int, t: Seq<char>|
                            0 <= e < m@.len() && #[trigger] strs_set(m@[e].1@).contains(
                                t,
                            ) implies reaches(m0, m@[e].0@, t) by {
                            if e == i {
                                if strs_set(adds).contains(t) {
                                    lemma_strs_mem_inv(adds, t);
                                } else {
                                    assert(strs_set(old_vals).contains(t));
                                }
                            } else {
                                assert(m@[e] == m_before[e]);
                            }
                        }
                        assert forall|e: int, z2: int|
                            0 <= e < m@.len() && 0 <= z2 < m@[e].1@.len() implies uni.contains(
                            (#[trigger] m@[e].1@[z2])@,
                        ) by {
                            if e == i {
                                if z2 < old_vals.len() {
                                    assert(m@[e].1@[z2] == old_vals[z2]);
                                    assert(uni.contains(m_before[e].1@[z2]@));
                                } else {
                                    assert(m@[e].1@[z2] == adds[z2 - old_vals.len()]);
                                }
                            } else {
                                assert(m@[e] == m_before[e]);
                            }
                        }
                    }
                    assert(total_values_len(m@) <= orig.len() * uni.len()) by {
                        assert forall|e: int| 0 <= e < m@.len() implies (#[trigger] m@[e]).1@.len()
                            <= uni.len() by {
                            lemma_entry_len_bound(m@[e].1@, uni);
                        }
                        lemma_total_le(m@, uni.len());
                    }
                }
            } else {
                proof {
                    assert(strs_set(additions@) =~= Set::<Seq<char>>::empty());
                    assert(entry_closed(m@, i as int)) by {
                        assert forall|j: int, z2: int|
                            0 <= j < m@.len() && 0 <= z2 < m@[i as int].1@.len() && (
                            #[trigger] m@[j]).0@ == (#[trigger] m@[i as int].1@[z2])@ implies strs_set(
                            m@[j].1@,
                        ).subset_of(strs_set(m@[i as int].1@)) by {
                            assert(strs_set(m@[j].1@).subset_of(
                                strs_set(m@[i as int].1@).union(strs_set(additions@)),
                            ));
                            assert(strs_set(m@[i as int].1@).union(strs_set(additions@))
                                =~= strs_set(m@[i as int].1@));
                        }
                    }
                }
            }
            i = i + 1;
        }
    }
    proof {
        assert(implied_closed(imp_map(m@))) by {
            assert forall|k: Seq<char>, t: Seq<char>|
                imp_map(m@).contains_key(k) && #[trigger] imp_map(m@)[k].contains(t) && imp_map(
                    m@,
                ).contains_key(t) implies imp_map(m@)[t].subset_of(imp_map(m@)[k]) by {
                lemma_imp_map_dom(m@, k);
                let e = choose|e: int| 0 <= e < m@.len() && (#[trigger] m@[e]).0@ == k;
                lemma_imp_map_index(m@, e);
                lemma_imp_map_dom(m@, t);
                let j = choose|j: int| 0 <= j < m@.len() && (#[trigger] m@[j]).0@ == t;
                lemma_imp_map_index(m@, j);
                lemma_strs_mem_inv(m@[e].1@, t);
                let z = choose|z: int| 0 <= z < m@[e].1@.len() && (#[trigger] m@[e].1@[z])@ == t;
                assert(entry_closed(m@, e));
                assert(strs_set(m@[j].1@).subset_of(strs_set(m@[e].1@)));
            }
        }
    }
    m
}

/// The set of non-empty trimmed lines of a plain-text list.
pub open spec fn trimmed_lines_set(lines: Seq<String>) -> Set<Seq<char>> {
    Set::new(
        |t: Seq<char>|
            t.len() > 0 && exists|i: int|
                0 <= i < lines.len() && #[trigger] trimmed(lines[i]@) == t,
    )
}

fn read_trimmed_lines(lines: &Vec<String>) -> (r: Vec<String>)
    ensures
        nodup_strs(r@),
        strs_set(r@) == trimmed_lines_set(lines@),
{
    let mut out: Vec<String> = Vec::new();
    let mut i: usize = 0;
    proof {
        assert(strs_set(out@) =~= trimmed_lines_set(lines@.subrange(0, 0)));
    }
    while i < lines.len()
        invariant
            i <= lines@.len(),
            nodup_strs(out@),
            strs_set(out@) == trimmed_lines_set(lines@.subrange(0, i as int)),
        decreases lines@.len() - i,
    {
        let ghost pre = lines@.subrange(0, i as int);
        let ghost post = lines@.subrange(0, i as int + 1);
        proof {
            assert forall|t: Seq<char>| trimmed_lines_set(pre).contains(t) implies trimmed_lines_set(
                post,
            ).contains(t) by {
                let w = choose|w: int| 0 <= w < pre.len() && #[trigger] trimmed(pre[w]@) == t;
                assert(trimmed(post[w]@) == t);
            }
        }
        let t = trim_ascii(lines[i].as_str());
        if !t.as_str().is_empty() {
            let present = strs_contains(&out, &t);
            if !present {
                let ghost out_before = out@;
                out.push(t);
                proof {
                    lemma_strs_push(out_before, out@.last());
                    assert(out@ == out_before.push(out@.last()));
                }
            }
        }
        proof {
            assert(post[i as int] == lines@[i as int]);
            assert(strs_set(out@) =~= trimmed_lines_set(post)) by {
                assert forall|t: Seq<char>| strs_set(out@).contains(t) implies trimmed_lines_set(
                    post,
                ).contains(t) by {
                    if !trimmed_lines_set(pre).contains(t) {
                        assert(t == trimmed(lines@[i as int]@));
                        assert(trimmed(post[i as int]@) == t);
                    } else {
                        let w = choose|w: int|
                            0 <= w < pre.len() && #[trigger] trimmed(pre[w]@) == t;
                        assert(trimmed(post[w]@) == t);
                    }
                }
                assert forall|t: Seq<char>| trimmed_lines_set(post).contains(t) implies strs_set(
                    out@,
                ).contains(t) by {
                    let w = choose|w: int| 0 <= w < post.len() && #[trigger] trimmed(post[w]@) == t;
                    if w < i {
                        assert(trimmed(pre[w]@) == t);
                        assert(trimmed_lines_set(pre).contains(t));
                    } else {
                        assert(t == trimmed(lines@[i as int]@));
                    }
                }
            }
        }
        i = i + 1;
    }
    proof {
        assert(lines@.subrange(0, lines@.len() as int) =~= lines@);
    }
    out
}

/// The blacklisted tags: the non-empty trimmed lines of the blacklist.
pub fn read_tag_blacklist(lines: &Vec<String>) -> (r: Vec<String>)
    ensures
        nodup_strs(r@),
        strs_set(r@) == trimmed_lines_set(lines@),
{
    read_trimmed_lines(lines)
}

/// The deprecated tags: the non-empty trimmed lines of the deprecation
/// list.
pub fn read_tag_deprecations(lines: &Vec<String>) -> (r: Vec<String>)
    ensures
        nodup_strs(r@),
        strs_set(r@) == trimmed_lines_set(lines@),
{
    read_trimmed_lines(lines)
}

/// The immutable tag-relationship snapshot: alias map, transitively closed
/// implication map, blacklist and deprecation sets. Built once at startup,
/// never mutated.
#[derive(Clone, Debug)]
pub struct TagMappings {
    aliases: Vec<(String, String)>,
    implications: Vec<(String, Vec<String>)>,
    blacklist: Vec<String>,
    deprecations: Vec<String>,
}

impl TagMappings {
    /// The alias map: aliased tag to canonical tag.
    pub closed spec fn alias_view(&self) -> Map<Seq<char>, Seq<char>> {
        assoc_map(self.aliases@)
    }

    /// The implication map: canonical tag to its closed implied set.
    pub closed spec fn implications_view(&self) -> Map<Seq<char>, Set<Seq<char>>> {
        imp_map(self.implications@)
    }

    /// The blacklisted tags.
    pub closed spec fn blacklist_view(&self) -> Set<Seq<char>> {
        strs_set(self.blacklist@)
    }

    /// The deprecated tags.
    pub closed spec fn deprecations_view(&self) -> Set<Seq<char>> {
        strs_set(self.deprecations@)
    }

    /// The snapshot's representation holds no duplicate keys or members.
    pub closed spec fn wf(&self) -> bool {
        nodup_pair_keys(self.aliases@) && nodup_imp_keys(self.implications@) && nodup_imp_values(
            self.implications@,
        ) && nodup_strs(self.blacklist@) && nodup_strs(self.deprecations@)
    }

    /// The canonical tag an aliased tag maps to, if any.
    pub fn canonical_of(&self, tag: &String) -> (r: Option<String>)
        requires
            self.wf(),
        ensures
            match r {
                Some(c) => self.alias_view().contains_key(tag@) && self.alias_view()[tag@] == c@,
                None => !self.alias_view().contains_key(tag@),
            },
    {
        match pairs_lookup(&self.aliases, tag) {
            Some(j) => {
                proof {
                    lemma_assoc_map_index(self.aliases@, j as int);
                }
                Some(self.aliases[j].1.clone())
            },
            None => {
                proof {
                    lemma_assoc_map_dom(self.aliases@, tag@);
                }
                None
            },
        }
    }

    /// The closed implied set of a canonical tag, if any.
    pub fn implied_of(&self, tag: &String) -> (r: Option<&Vec<String>>)
        requires
            self.wf(),
        ensures
            match r {
                Some(v) => self.implications_view().contains_key(tag@) && strs_set(v@)
                    == self.implications_view()[tag@],
                None => !self.implications_view().contains_key(tag@),
            },
    {
        match imps_lookup(&self.implications, tag) {
            Some(j) => {
                proof {
                    lemma_imp_map_index(self.implications@, j as int);
                }
                Some(&self.implications[j].1)
            },
            None => {
                proof {
                    lemma_imp_map_dom(self.implications@, tag@);
                }
                None
            },
        }
    }

    /// Whether a tag is blacklisted.
    pub fn is_blacklisted(&self, tag: &String) -> (r: bool)
        ensures
            r == self.blacklist_view().contains(tag@),
    {
        strs_contains(&self.blacklist, tag)
    }

    /// Whether a tag is deprecated.
    pub fn is_deprecated(&self, tag: &String) -> (r: bool)
        ensures
            r == self.deprecations_view().contains(tag@),
    {
        strs_contains(&self.deprecations, tag)
    }
}

/// Builds the immutable tag-mappings snapshot from raw reference data:
/// keeps active facts only, builds and checks the alias map, rewrites the
/// implications through it, and closes the implication relation
/// transitively. An integrity violation in the alias data refuses the
/// snapshot; the caller must treat that as fatal at startup.
pub fn get_tag_mappings(
    alias_facts: &Vec<TagFact>,
    implication_facts: &Vec<TagFact>,
    blacklist_lines: &Vec<String>,
    deprecation_lines: &Vec<String>,
) -> (r: Result<TagMappings, ResolverError>)
    ensures
        match r {
            Ok(tm) => {
                let am = alias_map_of(alias_facts@);
                let ci = canon_imp_map(am, imp_map_of(implication_facts@));
                &&& aliases_err(alias_facts@) is None
                &&& tm.wf()
                &&& tm.alias_view() == am
                &&& forall|k: Seq<char>|
                    #[trigger] tm.implications_view().contains_key(k) <==> ci.contains_key(k)
                &&& forall|k: Seq<char>|
                    ci.contains_key(k) ==> (#[trigger] ci[k]).subset_of(tm.implications_view()[k])
                &&& implied_closed(tm.implications_view())
                &&& forall|k: Seq<char>, t: Seq<char>|
                    tm.implications_view().contains_key(k) && #[trigger] tm.implications_view()[k].contains(
                        t,
                    ) ==> reaches(ci, k, t)
                &&& tm.blacklist_view() == trimmed_lines_set(blacklist_lines@)
                &&& tm.deprecations_view() == trimmed_lines_set(deprecation_lines@)
            },
            Err(e) => aliases_err(alias_facts@) == Some(e),
        },
{
    let aliases = match read_tag_aliases(alias_facts) {
        Ok(v) => v,
        Err(e) => {
            return Err(e);
        },
    };
    let raw_imps = read_tag_implications(implication_facts);
    let canon = canonicalize_implications(&aliases, &raw_imps);
    let ghost ci = imp_map(canon@);
    let closed = close_implications(canon);
    let blacklist = read_tag_blacklist(blacklist_lines);
    let deprecations = read_tag_deprecations(deprecation_lines);
    proof {
        assert forall|k: Seq<char>| #[trigger] imp_map(closed@).contains_key(k) <==> ci.contains_key(
            k,
        ) by {
            lemma_imp_map_dom(closed@, k);
            lemma_imp_map_dom(canon@, k);
            if exists|e: int| 0 <= e < closed@.len() && (#[trigger] closed@[e]).0@ == k {
                let e = choose|e: int| 0 <= e < closed@.len() && (#[trigger] closed@[e]).0@ == k;
                assert(canon@[e].0@ == k);
            }
            if exists|e: int| 0 <= e < canon@.len() && (#[trigger] canon@[e]).0@ == k {
                let e = choose|e: int| 0 <= e < canon@.len() && (#[trigger] canon@[e]).0@ == k;
                assert(closed@[e].0@ == k);
            }
        }
        assert forall|k: Seq<char>| ci.contains_key(k) implies (#[trigger] ci[k]).subset_of(
            imp_map(closed@)[k],
        ) by {
            lemma_imp_map_dom(canon@, k);
            let e = choose|e: int| 0 <= e < canon@.len() && (#[trigger] canon@[e]).0@ == k;
            lemma_imp_map_index(canon@, e);
            assert(closed@[e].0@ == k);
            lemma_imp_map_index(closed@, e);
            assert(strs_set(canon@[e].1@).subset_of(strs_set(closed@[e].1@)));
        }
        assert forall|k: Seq<char>, t: Seq<char>|
            imp_map(closed@).contains_key(k) && #[trigger] imp_map(closed@)[k].contains(
                t,
            ) implies reaches(ci, k, t) by {
            lemma_imp_map_dom(closed@, k);
            let e = choose|e: int| 0 <= e < closed@.len() && (#[trigger] closed@[e]).0@ == k;
            lemma_imp_map_index(closed@, e);
            assert(strs_set(closed@[e].1@).contains(t));
        }
    }
    Ok(TagMappings { aliases, implications: closed, blacklist, deprecations })
}

/// Law: a snapshot's implication map holds, for each of its tags, exactly
/// the tags reachable from it through the canonicalized implication
/// relation — everything reachable (saturation) and nothing else
/// (soundness).
pub proof fn lemma_implications_exactly_reachable(
    ci: Map<Seq<char>, Set<Seq<char>>>,
    mv: Map<Seq<char>, Set<Seq<char>>>,
    k: Seq<char>,
    t: Seq<char>,
)
    requires
        forall|k2: Seq<char>| #[trigger] mv.contains_key(k2) <==> ci.contains_key(k2),
        forall|k2: Seq<char>| ci.contains_key(k2) ==> (#[trigger] ci[k2]).subset_of(mv[k2]),
        implied_closed(mv),
        forall|k2: Seq<char>, t2: Seq<char>|
            mv.contains_key(k2) && #[trigger] mv[k2].contains(t2) ==> reaches(ci, k2, t2),
        mv.contains_key(k),
    ensures
        mv[k].contains(t) <==> reaches(ci, k, t),
{
    if reaches(ci, k, t) {
        lemma_closed_contains_reachable(ci, mv, k, t);
    }
}

} // verus!
