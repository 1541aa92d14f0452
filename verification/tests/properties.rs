use role_hierarchy::{DefaultRoleManager, RbacError, Role, SuffixMatcher};

#[test]
fn test_depth_cap() {
    let mut rm: DefaultRoleManager<SuffixMatcher> = DefaultRoleManager::new(1);
    rm.add_link("a", "b", None);
    rm.add_link("b", "c", None);
    assert_eq!(true, rm.has_link("a", "b", None));
    assert_eq!(false, rm.has_link("a", "c", None));

    let mut rm2: DefaultRoleManager<SuffixMatcher> = DefaultRoleManager::new(2);
    rm2.add_link("a", "b", None);
    rm2.add_link("b", "c", None);
    assert_eq!(true, rm2.has_link("a", "c", None));
}

#[test]
fn test_depth_zero_identity_only() {
    let mut rm: DefaultRoleManager<SuffixMatcher> = DefaultRoleManager::new(0);
    rm.add_link("a", "b", None);
    assert_eq!(true, rm.has_link("a", "a", None));
    assert_eq!(false, rm.has_link("a", "b", None));
}

#[test]
fn test_identity_without_state() {
    let mut rm: DefaultRoleManager<SuffixMatcher> = DefaultRoleManager::new(3);
    assert_eq!(true, rm.has_link("nobody", "nobody", None));
    assert_eq!(true, rm.has_link("nobody", "nobody", Some("d")));
    assert_eq!(false, rm.has_link("nobody", "other", None));
}

#[test]
fn test_delete_link_not_found() {
    let mut rm: DefaultRoleManager<SuffixMatcher> = DefaultRoleManager::new(3);
    match rm.delete_link("x", "y", None) {
        Err(RbacError::NotFound(msg)) => assert_eq!("x OR y", msg),
        Ok(()) => panic!("deleting between unknown roles must fail"),
    }
    rm.add_link("x", "y", None);
    rm.delete_link("x", "y", None).unwrap();
    // deleting an already absent edge between known roles is a no-op
    rm.delete_link("x", "y", None).unwrap();
    assert_eq!(false, rm.has_link("x", "y", None));
    match rm.delete_link("x", "z", Some("d1")) {
        Err(RbacError::NotFound(msg)) => assert_eq!("d1::x OR d1::z", msg),
        Ok(()) => panic!("deleting between unknown scoped roles must fail"),
    }
}

#[test]
fn test_matching_fn_expansion() {
    let mut rm: DefaultRoleManager<SuffixMatcher> = DefaultRoleManager::new(3);
    rm.add_matching_fn(SuffixMatcher::new(":admin"));
    rm.add_link("tenant1:admin", "r1", None);
    // creating "alice" expands her edges to every existing ":admin" name
    rm.add_link("alice", "data", None);
    assert_eq!(vec!["tenant1:admin", "data"], rm.get_roles("alice", None));
    assert_eq!(true, rm.has_link("alice", "r1", None));
    // a later admin role is not attached to "alice" retroactively
    rm.add_link("tenant2:admin", "r2", None);
    assert_eq!(
        vec![String::new(); 0],
        rm.get_users("tenant2:admin", None)
            .into_iter()
            .filter(|u| u == "alice")
            .collect::<Vec<String>>()
    );
    // ... but her next materialization picks it up
    let roles = rm.get_roles("alice", None);
    assert!(roles.contains(&"tenant2:admin".to_string()));
}

#[test]
fn test_matching_fn_membership() {
    let mut rm: DefaultRoleManager<SuffixMatcher> = DefaultRoleManager::new(3);
    rm.add_matching_fn(SuffixMatcher::new(":admin"));
    rm.add_link("tenant1:admin", "r1", None);
    // with a matcher, membership means "some indexed name matches", so even
    // an unknown name is materialized on read and expansion attaches the
    // matching roles to it
    assert_eq!(vec!["tenant1:admin"], rm.get_roles("zzz", None));
    // without any matching indexed name the membership test fails and the
    // read stays empty
    rm.clear();
    rm.add_link("a", "b", None);
    assert_eq!(vec![String::new(); 0], rm.get_roles("zzz", None));
}

#[test]
fn test_clear_keeps_settings() {
    let mut rm: DefaultRoleManager<SuffixMatcher> = DefaultRoleManager::new(2);
    rm.add_link("a", "b", None);
    rm.add_link("b", "c", None);
    rm.clear();
    assert_eq!(false, rm.has_link("a", "b", None));
    assert_eq!(vec![String::new(); 0], rm.get_roles("a", None));
    assert_eq!(vec![String::new(); 0], rm.get_users("b", None));
    // the depth budget survives a clear
    rm.add_link("a", "b", None);
    rm.add_link("b", "c", None);
    rm.add_link("c", "d", None);
    assert_eq!(true, rm.has_link("a", "c", None));
    assert_eq!(false, rm.has_link("a", "d", None));
}

#[test]
fn test_reverse_consistency_scenario() {
    let mut rm: DefaultRoleManager<SuffixMatcher> = DefaultRoleManager::new(3);
    rm.add_link("u1", "g1", Some("d1"));
    rm.add_link("u2", "g1", Some("d1"));
    rm.add_link("u5", "g3", None);
    for a in rm.get_users("g1", Some("d1")) {
        assert!(rm.get_roles(&a, Some("d1")).contains(&"g1".to_string()));
    }
    for a in rm.get_users("g3", None) {
        assert!(rm.get_roles(&a, None).contains(&"g3".to_string()));
    }
}

#[test]
fn test_domain_isolation_scenario() {
    let mut rm: DefaultRoleManager<SuffixMatcher> = DefaultRoleManager::new(3);
    rm.add_link("u1", "g1", Some("d2"));
    assert_eq!(false, rm.has_link("u1", "g2", Some("d2")));
    // a link under another domain changes nothing under d2
    rm.add_link("g1", "g2", Some("d1"));
    assert_eq!(false, rm.has_link("u1", "g2", Some("d2")));
    assert_eq!(true, rm.has_link("u1", "g1", Some("d2")));
}

#[test]
fn test_get_roles_unknown_domain() {
    let mut rm: DefaultRoleManager<SuffixMatcher> = DefaultRoleManager::new(3);
    rm.add_link("u1", "g1", Some("d1"));
    assert_eq!(vec![String::new(); 0], rm.get_roles("u1", Some("d2")));
    assert_eq!(vec![String::new(); 0], rm.get_users("g1", Some("d2")));
    assert_eq!(vec!["g1"], rm.get_roles("u1", Some("d1")));
}

#[test]
fn test_role_node_operations() {
    let mut r = Role::new("r");
    let a = Role::new("a");
    let b = Role::new("b");
    r.add_role(&a);
    r.add_role(&b);
    r.add_role(&a);
    assert_eq!(vec!["a", "b"], r.get_roles());
    assert!(r.has_direct_role("a"));
    assert!(!r.has_direct_role("c"));
    r.delete_role(&a);
    assert_eq!(vec!["b"], r.get_roles());
    assert!(!r.has_direct_role("a"));
}

#[test]
fn test_role_node_reachability() {
    let mut a = Role::new("a");
    let mut b = Role::new("b");
    let c = Role::new("c");
    b.add_role(&c);
    a.add_role(&b);
    let all = vec![a, b, c];
    assert!(all[0].has_role(&all, "a", 0));
    assert!(!all[0].has_role(&all, "b", 0));
    assert!(all[0].has_role(&all, "b", 1));
    assert!(all[0].has_role(&all, "c", 2));
    assert!(!all[0].has_role(&all, "c", 1));
}

#[test]
fn test_role_domain() {
    assert_eq!(Some("d1".to_string()), Role::new("d1::x").domain());
    assert_eq!(Some("plain".to_string()), Role::new("plain").domain());
    assert_eq!(Some("".to_string()), Role::new("::x").domain());
}
