use tagsearch::tags::{get_tag_mappings, read_tag_aliases, ResolverError, TagFact};

fn fact(a: &str, c: &str, status: &str) -> TagFact {
    TagFact {
        antecedent: a.to_string(),
        consequent: c.to_string(),
        status: status.to_string(),
    }
}

fn strings(v: &[&str]) -> Vec<String> {
    v.iter().map(|s| s.to_string()).collect()
}

#[test]
fn closure_follows_implication_chains() {
    let aliases = vec![fact("ff7", "final_fantasy_vii", "active")];
    let implications = vec![
        fact("final_fantasy_vii", "video_games", "active"),
        fact("video_games", "media", "active"),
    ];
    let tm = get_tag_mappings(&aliases, &implications, &vec![], &vec![]).unwrap();

    let implied = tm.implied_of(&"final_fantasy_vii".to_string()).unwrap();
    let mut implied: Vec<String> = implied.clone();
    implied.sort();
    assert_eq!(implied, strings(&["media", "video_games"]));

    // implications are keyed only by canonical names
    assert!(tm.implied_of(&"ff7".to_string()).is_none());

    let canonical = tm.canonical_of(&"ff7".to_string()).unwrap();
    assert_eq!(canonical, "final_fantasy_vii");
}

#[test]
fn implication_antecedents_and_consequents_are_canonicalized() {
    let aliases = vec![fact("ff7", "final_fantasy_vii", "active")];
    let implications = vec![fact("ff7", "ff7_chars", "active")];
    let tm = get_tag_mappings(&aliases, &implications, &vec![], &vec![]).unwrap();
    assert!(tm.implied_of(&"ff7".to_string()).is_none());
    let implied = tm.implied_of(&"final_fantasy_vii".to_string()).unwrap();
    assert_eq!(implied.clone(), strings(&["ff7_chars"]));
}

#[test]
fn entries_merging_to_one_canonical_name_are_unioned() {
    let aliases = vec![fact("ff7", "final_fantasy_vii", "active")];
    let implications = vec![
        fact("ff7", "video_games", "active"),
        fact("final_fantasy_vii", "square", "active"),
    ];
    let tm = get_tag_mappings(&aliases, &implications, &vec![], &vec![]).unwrap();
    let mut implied: Vec<String> = tm.implied_of(&"final_fantasy_vii".to_string()).unwrap().clone();
    implied.sort();
    assert_eq!(implied, strings(&["square", "video_games"]));
}

#[test]
fn cyclic_implications_saturate() {
    let implications = vec![fact("a", "b", "active"), fact("b", "a", "active")];
    let tm = get_tag_mappings(&vec![], &implications, &vec![], &vec![]).unwrap();
    let mut implied: Vec<String> = tm.implied_of(&"a".to_string()).unwrap().clone();
    implied.sort();
    assert_eq!(implied, strings(&["a", "b"]));
}

#[test]
fn self_alias_is_fatal() {
    let aliases = vec![fact("a", "a", "active")];
    let err = get_tag_mappings(&aliases, &vec![], &vec![], &vec![]).unwrap_err();
    assert_eq!(err, ResolverError::SelfAlias);
}

#[test]
fn alias_chain_is_fatal() {
    let aliases = vec![fact("a", "b", "active"), fact("b", "c", "active")];
    let err = get_tag_mappings(&aliases, &vec![], &vec![], &vec![]).unwrap_err();
    assert_eq!(err, ResolverError::AliasChain);
}

#[test]
fn conflicting_duplicate_antecedent_is_fatal() {
    let aliases = vec![fact("a", "b", "active"), fact("a", "c", "active")];
    let err = get_tag_mappings(&aliases, &vec![], &vec![], &vec![]).unwrap_err();
    assert_eq!(err, ResolverError::ConflictingAlias);
}

#[test]
fn identical_duplicate_aliases_are_tolerated() {
    let aliases = vec![fact("a", "b", "active"), fact("a", "b", "active")];
    let tm = get_tag_mappings(&aliases, &vec![], &vec![], &vec![]).unwrap();
    assert_eq!(tm.canonical_of(&"a".to_string()).unwrap(), "b");
}

#[test]
fn inactive_facts_are_ignored() {
    let aliases = vec![fact("a", "a", "deleted"), fact("x", "y", "active")];
    let implications = vec![fact("p", "q", "pending")];
    let tm = get_tag_mappings(&aliases, &implications, &vec![], &vec![]).unwrap();
    assert_eq!(tm.canonical_of(&"x".to_string()).unwrap(), "y");
    assert!(tm.canonical_of(&"a".to_string()).is_none());
    assert!(tm.implied_of(&"p".to_string()).is_none());
}

#[test]
fn alias_reader_reports_the_first_scan_violation() {
    let facts = vec![fact("a", "b", "active"), fact("a", "c", "active"), fact("d", "d", "active")];
    assert_eq!(read_tag_aliases(&facts).unwrap_err(), ResolverError::ConflictingAlias);

    let facts = vec![fact("d", "d", "active"), fact("a", "b", "active"), fact("a", "c", "active")];
    assert_eq!(read_tag_aliases(&facts).unwrap_err(), ResolverError::SelfAlias);
}

#[test]
fn blacklist_and_deprecations_are_trimmed_and_deduplicated() {
    let blacklist = strings(&["  spoilers \t", "", "   ", "gore", "spoilers"]);
    let deprecations = strings(&["old_tag\r", "old_tag"]);
    let tm = get_tag_mappings(&vec![], &vec![], &blacklist, &deprecations).unwrap();
    assert!(tm.is_blacklisted(&"spoilers".to_string()));
    assert!(tm.is_blacklisted(&"gore".to_string()));
    assert!(!tm.is_blacklisted(&"".to_string()));
    assert!(!tm.is_blacklisted(&"media".to_string()));
    assert!(tm.is_deprecated(&"old_tag".to_string()));
    assert!(!tm.is_deprecated(&"gore".to_string()));
}

#[test]
fn diamond_and_long_chains_close_fully() {
    let implications = vec![
        fact("a", "b", "active"),
        fact("a", "c", "active"),
        fact("b", "d", "active"),
        fact("c", "d", "active"),
        fact("d", "e", "active"),
    ];
    let tm = get_tag_mappings(&vec![], &implications, &vec![], &vec![]).unwrap();
    let mut implied: Vec<String> = tm.implied_of(&"a".to_string()).unwrap().clone();
    implied.sort();
    assert_eq!(implied, strings(&["b", "c", "d", "e"]));
    let mut implied_b: Vec<String> = tm.implied_of(&"b".to_string()).unwrap().clone();
    implied_b.sort();
    assert_eq!(implied_b, strings(&["d", "e"]));
}
