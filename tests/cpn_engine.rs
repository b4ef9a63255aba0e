use petri_monitor::{ArcSpec, ArcTokenPattern, Binding, CpnEngine, Marking, Token, TokenMultiset, Transition};

fn arc(place: &str, var: &str) -> ArcSpec {
    ArcSpec {
        place: place.to_string(),
        token: ArcTokenPattern::Variable(var.to_string()),
    }
}

fn acquire() -> Transition {
    Transition {
        id: "acquire".to_string(),
        pre: vec![arc("free", "L")],
        post: vec![arc("held", "L")],
    }
}

fn release() -> Transition {
    Transition {
        id: "release".to_string(),
        pre: vec![arc("held", "L")],
        post: vec![arc("free", "L")],
    }
}

fn lock_binding(id: u64) -> Binding {
    let mut b = Binding::new();
    b.insert("L".to_string(), Token::Lock(id));
    b
}

#[test]
fn test_mutex_acquire_release() {
    let mut cpn = CpnEngine::new();
    let mut init = Marking::new();
    init.add_token("free", Token::Lock(42), 1);
    cpn.add_transition(acquire());
    cpn.add_transition(release());
    cpn.set_initial_marking(init);

    let binding = lock_binding(42);

    cpn.fire("acquire", &binding).unwrap();
    assert!(cpn.marking().get("free").unwrap().is_empty());
    assert_eq!(cpn.marking().get("held").unwrap().count(&Token::Lock(42)), 1);

    cpn.fire("release", &binding).unwrap();
    assert_eq!(cpn.marking().get("free").unwrap().count(&Token::Lock(42)), 1);
    assert!(cpn.marking().get("held").unwrap().is_empty());
}

#[test]
fn test_two_locks_concurrent() {
    let mut cpn = CpnEngine::new();
    let mut init = Marking::new();
    init.add_token("free", Token::Lock(1), 1);
    init.add_token("free", Token::Lock(2), 1);
    cpn.add_transition(acquire());
    cpn.set_initial_marking(init);

    let b1 = lock_binding(1);
    let b2 = lock_binding(2);

    cpn.fire("acquire", &b1).unwrap();
    cpn.fire("acquire", &b2).unwrap();

    assert!(cpn.marking().get("free").unwrap().is_empty());
    assert_eq!(cpn.marking().get("held").unwrap().count(&Token::Lock(1)), 1);
    assert_eq!(cpn.marking().get("held").unwrap().count(&Token::Lock(2)), 1);
}

#[test]
fn test_not_enabled_error() {
    let mut cpn = CpnEngine::new();
    cpn.set_initial_marking(Marking::new());
    cpn.add_transition(acquire());

    let binding = lock_binding(42);

    let err = cpn.fire("acquire", &binding).unwrap_err();
    assert_eq!(err.transition, "acquire");
    assert_eq!(err.missing.len(), 1);
    assert_eq!(err.missing[0].0, "free");
    assert_eq!(err.missing[0].1, Token::Lock(42));
}

#[test]
fn unknown_transition_fails_with_no_missing_pairs() {
    let mut cpn = CpnEngine::new();
    let err = cpn.fire("nope", &Binding::new()).unwrap_err();
    assert_eq!(err.transition, "nope");
    assert!(err.missing.is_empty());
}

#[test]
fn unbound_variable_is_reported_with_unit_token() {
    let mut cpn = CpnEngine::new();
    let mut init = Marking::new();
    init.add_token("free", Token::Lock(1), 1);
    cpn.add_transition(acquire());
    cpn.set_initial_marking(init);
    let err = cpn.fire("acquire", &Binding::new()).unwrap_err();
    assert_eq!(err.missing, vec![("free".to_string(), Token::Unit)]);
    assert_eq!(
        err.to_text(),
        "Transition acquire not enabled. Missing tokens: Unit in place 'free'"
    );
}

#[test]
fn failed_fire_leaves_marking_unchanged() {
    let mut cpn = CpnEngine::new();
    let mut init = Marking::new();
    init.add_token("free", Token::Lock(1), 1);
    cpn.add_transition(Transition {
        id: "both".to_string(),
        pre: vec![arc("free", "L"), arc("other", "L")],
        post: vec![arc("held", "L")],
    });
    cpn.set_initial_marking(init);
    let before = cpn.marking_hash();
    let err = cpn.fire("both", &lock_binding(1)).unwrap_err();
    assert_eq!(err.missing, vec![("other".to_string(), Token::Lock(1))]);
    assert_eq!(cpn.marking().get("free").unwrap().count(&Token::Lock(1)), 1);
    assert!(cpn.marking().get("held").is_none());
    assert!(cpn.marking().get("other").is_none());
    assert_eq!(cpn.marking_hash(), before);
}

#[test]
fn concrete_arcs_move_fixed_tokens() {
    let mut cpn = CpnEngine::new();
    let mut init = Marking::new();
    init.add_token("a", Token::Unit, 2);
    cpn.add_transition(Transition {
        id: "step".to_string(),
        pre: vec![ArcSpec { place: "a".to_string(), token: ArcTokenPattern::Concrete(Token::Unit) }],
        post: vec![ArcSpec { place: "b".to_string(), token: ArcTokenPattern::Concrete(Token::Region(3)) }],
    });
    cpn.set_initial_marking(init);
    cpn.fire("step", &Binding::new()).unwrap();
    assert_eq!(cpn.marking().get("a").unwrap().count(&Token::Unit), 1);
    assert_eq!(cpn.marking().get("b").unwrap().count(&Token::Region(3)), 1);
}

#[test]
fn later_transition_with_same_id_wins() {
    let mut cpn = CpnEngine::new();
    cpn.add_transition(acquire());
    cpn.add_transition(Transition { id: "acquire".to_string(), pre: vec![], post: vec![arc("held", "L")] });
    cpn.fire("acquire", &lock_binding(5)).unwrap();
    assert_eq!(cpn.marking().get("held").unwrap().count(&Token::Lock(5)), 1);
}

#[test]
fn multiset_add_then_remove_restores() {
    let mut m = TokenMultiset::new();
    m.add(Token::Tid(3), 2);
    let before = m.iter().to_vec();
    m.add(Token::Lock(9), 4);
    m.add(Token::Tid(3), 5);
    assert!(m.remove(&Token::Tid(3), 5));
    assert!(m.remove(&Token::Lock(9), 4));
    assert_eq!(m.iter().to_vec(), before);
    assert_eq!(m.count(&Token::Lock(9)), 0);
}

#[test]
fn multiset_remove_too_many_fails_cleanly() {
    let mut m = TokenMultiset::new();
    m.add(Token::Loc(1), 2);
    assert!(!m.remove(&Token::Loc(1), 3));
    assert_eq!(m.count(&Token::Loc(1)), 2);
    assert!(!m.remove(&Token::Loc(2), 1));
    assert!(m.remove(&Token::Loc(1), 2));
    assert!(m.is_empty());
}

#[test]
fn multiset_contains_and_zero_add() {
    let mut m = TokenMultiset::new();
    assert!(m.contains(&Token::Unit, 0));
    assert!(!m.contains(&Token::Unit, 1));
    m.add(Token::Unit, 0);
    assert!(m.is_empty());
    m.add(Token::Unit, 3);
    assert!(m.contains(&Token::Unit, 3));
    assert!(!m.contains(&Token::Unit, 4));
}

#[test]
fn multiset_lists_in_canonical_order() {
    let mut m = TokenMultiset::new();
    m.add(Token::Unit, 1);
    m.add(Token::Lock(10), 1);
    m.add(Token::Tid(7), 2);
    m.add(Token::Lock(9), 1);
    assert_eq!(
        m.iter().to_vec(),
        vec![(Token::Lock(10), 1), (Token::Lock(9), 1), (Token::Tid(7), 2), (Token::Unit, 1)]
    );
}

#[test]
fn hash_ignores_insertion_order() {
    let mut a = Marking::new();
    a.add_token("free", Token::Lock(1), 1);
    a.add_token("free", Token::Lock(2), 1);
    a.add_token("held", Token::Tid(4), 2);
    let mut b = Marking::new();
    b.add_token("held", Token::Tid(4), 1);
    b.add_token("free", Token::Lock(2), 1);
    b.add_token("held", Token::Tid(4), 1);
    b.add_token("free", Token::Lock(1), 1);
    assert_eq!(a.hash(), b.hash());
    b.add_token("free", Token::Lock(3), 1);
    assert_ne!(a.hash(), b.hash());
}

#[test]
fn marking_places_are_listed_by_name() {
    let mut m = Marking::new();
    m.add_token("zeta", Token::Unit, 1);
    m.add_token("alpha", Token::Unit, 1);
    m.add_token("mid", Token::Unit, 1);
    let names: Vec<String> = m.iter().iter().map(|(n, _)| n.clone()).collect();
    assert_eq!(names, vec!["alpha".to_string(), "mid".to_string(), "zeta".to_string()]);
    assert!(m.remove_token("mid", &Token::Unit, 1));
    assert!(m.get("mid").unwrap().is_empty());
    assert!(!m.remove_token("none", &Token::Unit, 1));
    assert!(m.get("none").unwrap().is_empty());
}

#[test]
fn token_text_forms() {
    assert_eq!(Token::Lock(42).to_text(), "Lock(42)");
    assert_eq!(Token::Tid(0).to_text(), "Tid(0)");
    assert_eq!(Token::Region(18446744073709551615).to_text(), "Region(18446744073709551615)");
    assert_eq!(Token::Unit.to_text(), "Unit");
}

#[test]
fn hash_treats_empty_place_as_absent() {
    let mut a = Marking::new();
    a.add_token("free", Token::Lock(1), 1);
    let mut b = Marking::new();
    b.add_token("free", Token::Lock(1), 1);
    b.add_token("held", Token::Lock(1), 0);
    assert!(!b.remove_token("spare", &Token::Unit, 1));
    assert!(b.get("spare").unwrap().is_empty());
    assert_eq!(a.hash(), b.hash());
    let mut c = Marking::new();
    c.add_token("held", Token::Lock(1), 1);
    assert!(c.remove_token("held", &Token::Lock(1), 1));
    assert_eq!(c.hash(), Marking::new().hash());
}

#[test]
fn hash_separates_names_from_tokens() {
    let mut a = Marking::new();
    a.add_token("ab", Token::Unit, 1);
    let mut b = Marking::new();
    b.add_token("a", Token::Unit, 1);
    assert_ne!(a.hash(), b.hash());
}

#[test]
fn acquire_then_release_hashes_like_initial() {
    let mut cpn = CpnEngine::new();
    let mut init = Marking::new();
    init.add_token("free", Token::Lock(42), 1);
    cpn.add_transition(acquire());
    cpn.add_transition(release());
    cpn.set_initial_marking(init);
    let start = cpn.marking_hash();
    cpn.fire("acquire", &lock_binding(42)).unwrap();
    assert_ne!(cpn.marking_hash(), start);
    cpn.fire("release", &lock_binding(42)).unwrap();
    assert!(cpn.marking().get("held").unwrap().is_empty());
    assert_eq!(cpn.marking_hash(), start);
    assert_eq!(cpn.max_post_len(), 1);
    assert_eq!(cpn.marking().max_count(), 1);
}
