use role_hierarchy::{DefaultRoleManager, SuffixMatcher};

fn sort_unstable<T: Ord>(mut v: Vec<T>) -> Vec<T> {
    v.sort_unstable();
    v
}

#[test]
fn test_role() {
    let mut rm: DefaultRoleManager<SuffixMatcher> = DefaultRoleManager::new(3);
    rm.add_link("u1", "g1", None);
    rm.add_link("u2", "g1", None);
    rm.add_link("u3", "g2", None);
    rm.add_link("u4", "g2", None);
    rm.add_link("u4", "g3", None);
    rm.add_link("g1", "g3", None);

    assert_eq!(true, rm.has_link("u1", "g1", None));
    assert_eq!(false, rm.has_link("u1", "g2", None));
    assert_eq!(true, rm.has_link("u1", "g3", None));
    assert_eq!(true, rm.has_link("u2", "g1", None));
    assert_eq!(false, rm.has_link("u2", "g2", None));
    assert_eq!(true, rm.has_link("u2", "g3", None));
    assert_eq!(false, rm.has_link("u3", "g1", None));
    assert_eq!(true, rm.has_link("u3", "g2", None));
    assert_eq!(false, rm.has_link("u3", "g3", None));
    assert_eq!(false, rm.has_link("u4", "g1", None));
    assert_eq!(true, rm.has_link("u4", "g2", None));
    assert_eq!(true, rm.has_link("u4", "g3", None));

    // test get_roles
    assert_eq!(vec!["g1"], rm.get_roles("u1", None));
    assert_eq!(vec!["g1"], rm.get_roles("u2", None));
    assert_eq!(vec!["g2"], rm.get_roles("u3", None));
    assert_eq!(vec!["g2", "g3"], rm.get_roles("u4", None));
    assert_eq!(vec!["g3"], rm.get_roles("g1", None));
    assert_eq!(vec![String::new(); 0], rm.get_roles("g2", None));
    assert_eq!(vec![String::new(); 0], rm.get_roles("g3", None));

    // test delete_link
    rm.delete_link("g1", "g3", None).unwrap();
    rm.delete_link("u4", "g2", None).unwrap();
    assert_eq!(true, rm.has_link("u1", "g1", None));
    assert_eq!(false, rm.has_link("u1", "g2", None));
    assert_eq!(false, rm.has_link("u1", "g3", None));
    assert_eq!(true, rm.has_link("u2", "g1", None));
    assert_eq!(false, rm.has_link("u2", "g2", None));
    assert_eq!(false, rm.has_link("u2", "g3", None));
    assert_eq!(false, rm.has_link("u3", "g1", None));
    assert_eq!(true, rm.has_link("u3", "g2", None));
    assert_eq!(false, rm.has_link("u3", "g3", None));
    assert_eq!(false, rm.has_link("u4", "g1", None));
    assert_eq!(false, rm.has_link("u4", "g2", None));
    assert_eq!(true, rm.has_link("u4", "g3", None));
    assert_eq!(vec!["g1"], rm.get_roles("u1", None));
    assert_eq!(vec!["g1"], rm.get_roles("u2", None));
    assert_eq!(vec!["g2"], rm.get_roles("u3", None));
    assert_eq!(vec!["g3"], rm.get_roles("u4", None));
    assert_eq!(vec![String::new(); 0], rm.get_roles("g1", None));
    assert_eq!(vec![String::new(); 0], rm.get_roles("g2", None));
    assert_eq!(vec![String::new(); 0], rm.get_roles("g3", None));
}

#[test]
fn test_clear() {
    let mut rm: DefaultRoleManager<SuffixMatcher> = DefaultRoleManager::new(3);
    rm.add_link("u1", "g1", None);
    rm.add_link("u2", "g1", None);
    rm.add_link("u3", "g2", None);
    rm.add_link("u4", "g2", None);
    rm.add_link("u4", "g3", None);
    rm.add_link("g1", "g3", None);

    rm.clear();
    assert_eq!(false, rm.has_link("u1", "g1", None));
    assert_eq!(false, rm.has_link("u1", "g2", None));
    assert_eq!(false, rm.has_link("u1", "g3", None));
    assert_eq!(false, rm.has_link("u2", "g1", None));
    assert_eq!(false, rm.has_link("u2", "g2", None));
    assert_eq!(false, rm.has_link("u2", "g3", None));
    assert_eq!(false, rm.has_link("u3", "g1", None));
    assert_eq!(false, rm.has_link("u3", "g2", None));
    assert_eq!(false, rm.has_link("u3", "g3", None));
    assert_eq!(false, rm.has_link("u4", "g1", None));
    assert_eq!(false, rm.has_link("u4", "g2", None));
    assert_eq!(false, rm.has_link("u4", "g3", None));
}

#[test]
fn test_domain_role() {
    let mut rm: DefaultRoleManager<SuffixMatcher> = DefaultRoleManager::new(3);
    rm.add_link("u1", "g1", Some("domain1"));
    rm.add_link("u2", "g1", Some("domain1"));
    rm.add_link("u3", "admin", Some("domain2"));
    rm.add_link("u4", "admin", Some("domain2"));
    rm.add_link("u4", "admin", Some("domain1"));
    rm.add_link("g1", "admin", Some("domain1"));

    assert_eq!(true, rm.has_link("u1", "g1", Some("domain1")));
    assert_eq!(false, rm.has_link("u1", "g1", Some("domain2")));
    assert_eq!(true, rm.has_link("u1", "admin", Some("domain1")));
    assert_eq!(false, rm.has_link("u1", "admin", Some("domain2")));

    assert_eq!(true, rm.has_link("u2", "g1", Some("domain1")));
    assert_eq!(false, rm.has_link("u2", "g1", Some("domain2")));
    assert_eq!(true, rm.has_link("u2", "admin", Some("domain1")));
    assert_eq!(false, rm.has_link("u2", "admin", Some("domain2")));

    assert_eq!(false, rm.has_link("u3", "g1", Some("domain1")));
    assert_eq!(false, rm.has_link("u3", "g1", Some("domain2")));
    assert_eq!(false, rm.has_link("u3", "admin", Some("domain1")));
    assert_eq!(true, rm.has_link("u3", "admin", Some("domain2")));

    assert_eq!(false, rm.has_link("u4", "g1", Some("domain1")));
    assert_eq!(false, rm.has_link("u4", "g1", Some("domain2")));
    assert_eq!(true, rm.has_link("u4", "admin", Some("domain1")));
    assert_eq!(true, rm.has_link("u4", "admin", Some("domain2")));

    rm.delete_link("g1", "admin", Some("domain1")).unwrap();

    rm.delete_link("u4", "admin", Some("domain2")).unwrap();

    assert_eq!(true, rm.has_link("u1", "g1", Some("domain1")));
    assert_eq!(false, rm.has_link("u1", "g1", Some("domain2")));
    assert_eq!(false, rm.has_link("u1", "admin", Some("domain1")));
    assert_eq!(false, rm.has_link("u1", "admin", Some("domain2")));

    assert_eq!(true, rm.has_link("u2", "g1", Some("domain1")));
    assert_eq!(false, rm.has_link("u2", "g1", Some("domain2")));
    assert_eq!(false, rm.has_link("u2", "admin", Some("domain1")));
    assert_eq!(false, rm.has_link("u2", "admin", Some("domain2")));

    assert_eq!(false, rm.has_link("u3", "g1", Some("domain1")));
    assert_eq!(false, rm.has_link("u3", "g1", Some("domain2")));
    assert_eq!(false, rm.has_link("u3", "admin", Some("domain1")));
    assert_eq!(true, rm.has_link("u3", "admin", Some("domain2")));

    assert_eq!(false, rm.has_link("u4", "g1", Some("domain1")));
    assert_eq!(false, rm.has_link("u4", "g1", Some("domain2")));
    assert_eq!(true, rm.has_link("u4", "admin", Some("domain1")));
    assert_eq!(false, rm.has_link("u4", "admin", Some("domain2")));
}

#[test]
fn test_users() {
    let mut rm: DefaultRoleManager<SuffixMatcher> = DefaultRoleManager::new(3);
    rm.add_link("u1", "g1", Some("domain1"));
    rm.add_link("u2", "g1", Some("domain1"));

    rm.add_link("u3", "g2", Some("domain2"));
    rm.add_link("u4", "g2", Some("domain2"));

    rm.add_link("u5", "g3", None);

    assert_eq!(
        vec!["u1", "u2"],
        sort_unstable(rm.get_users("g1", Some("domain1")))
    );
    assert_eq!(
        vec!["u3", "u4"],
        sort_unstable(rm.get_users("g2", Some("domain2")))
    );
    assert_eq!(vec!["u5"], rm.get_users("g3", None));
}
