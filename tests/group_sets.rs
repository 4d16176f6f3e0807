use ai::groups::{GroupInfo, GroupSets};

fn now_nanos() -> i64 {
    let d = std::time::SystemTime::now().duration_since(std::time::UNIX_EPOCH).unwrap();
    d.as_nanos() as i64
}

fn info(members: &[&str]) -> GroupInfo {
    GroupInfo {
        members: members.iter().map(|m| m.to_string()).collect(),
        last_modified: now_nanos(),
    }
}

#[test]
fn tests_test_new_group_set() {
    let group_set = GroupSets::new();
    assert_eq!(group_set.get_user_to_group_mappings().len(), 0);
    assert_eq!(group_set.get_groups().len(), 0);
    assert_eq!(group_set.next_group_id(), 0);
}

#[test]
fn tests_test_add_user() {
    let mut group_set = GroupSets::new();

    group_set.add_user("alice");
    assert_eq!(group_set.find_group("alice"), Some(0));
    assert_eq!(group_set.get_group_members("alice"), vec!["alice"]);

    group_set.add_user("bob");
    assert_eq!(group_set.find_group("bob"), Some(1));
    assert_eq!(group_set.get_group_members("bob"), vec!["bob"]);

    // Adding the same user again should not create a new group
    group_set.add_user("alice");
    assert_eq!(group_set.find_group("alice"), Some(0));
    assert_eq!(group_set.get_groups().len(), 2);
}

#[test]
fn tests_test_union_different_groups() {
    let mut group_set = GroupSets::new();

    group_set.add_user("alice");
    group_set.add_user("bob");

    // Initially in different groups
    assert_ne!(group_set.find_group("alice"), group_set.find_group("bob"));

    group_set.union("alice", "bob");

    // Now they should be in the same group
    assert_eq!(group_set.find_group("alice"), group_set.find_group("bob"));

    let alice_members = group_set.get_group_members("alice");
    let bob_members = group_set.get_group_members("bob");
    assert_eq!(alice_members, bob_members);
    assert_eq!(alice_members.len(), 2);
    assert!(alice_members.contains(&"alice".to_string()));
    assert!(alice_members.contains(&"bob".to_string()));
}

#[test]
fn tests_test_union_same_group() {
    let mut group_set = GroupSets::new();

    group_set.add_user("alice");
    group_set.add_user("bob");
    group_set.union("alice", "bob");

    let group_id_before = group_set.find_group("alice");
    let members_before = group_set.get_group_members("alice");

    // Union again - should be no-op
    group_set.union("alice", "bob");

    assert_eq!(group_set.find_group("alice"), group_id_before);
    assert_eq!(group_set.get_group_members("alice"), members_before);
}

#[test]
fn tests_test_union_new_users() {
    let mut group_set = GroupSets::new();

    // Union two users that don't exist yet
    group_set.union("alice", "bob");

    assert_eq!(group_set.find_group("alice"), group_set.find_group("bob"));
    assert_eq!(group_set.get_group_members("alice").len(), 2);
}

#[test]
fn tests_test_remove_user() {
    let mut group_set = GroupSets::new();

    group_set.add_user("alice");
    group_set.add_user("bob");
    group_set.add_user("charlie");
    group_set.union("alice", "bob");
    group_set.union("bob", "charlie");

    // All three should be in the same group
    let group_id = group_set.find_group("alice");
    assert_eq!(group_set.find_group("bob"), group_id);
    assert_eq!(group_set.find_group("charlie"), group_id);
    assert_eq!(group_set.get_group_members("alice").len(), 3);

    group_set.remove_user("alice");

    // Alice should be in a new singleton group
    assert_ne!(group_set.find_group("alice"), group_id);
    assert_eq!(group_set.get_group_members("alice"), vec!["alice"]);

    // Bob and charlie should still be together
    assert_eq!(group_set.find_group("bob"), group_set.find_group("charlie"));
    assert_eq!(group_set.get_group_members("bob").len(), 2);
}

#[test]
fn tests_test_complex_unions() {
    let mut group_set = GroupSets::new();

    group_set.union("alice", "bob");
    group_set.union("charlie", "david");
    group_set.union("eve", "frank");

    assert_eq!(group_set.get_group_members("alice").len(), 2);
    assert_eq!(group_set.get_group_members("charlie").len(), 2);
    assert_eq!(group_set.get_group_members("eve").len(), 2);

    group_set.union("alice", "charlie");

    assert_eq!(group_set.get_group_members("alice").len(), 4);
    assert_eq!(group_set.find_group("alice"), group_set.find_group("bob"));
    assert_eq!(group_set.find_group("alice"), group_set.find_group("charlie"));
    assert_eq!(group_set.find_group("alice"), group_set.find_group("david"));

    assert_eq!(group_set.get_group_members("eve").len(), 2);
    assert_ne!(group_set.find_group("alice"), group_set.find_group("eve"));
}

#[test]
fn tests_test_from_maps_consistency_checks() {
    // user_to_group references a group that does not exist
    let user_to_group = vec![("alice".to_string(), 0), ("bob".to_string(), 999)];
    let groups = vec![(0, info(&["alice"]))];

    let group_set = GroupSets::from_maps(user_to_group, groups);

    // Bob is dropped since group 999 does not exist
    assert_eq!(group_set.get_user_to_group_mappings().len(), 1);
    assert!(group_set.find_group("alice").is_some());
    assert!(group_set.find_group("bob").is_none());
}

#[test]
fn tests_test_from_maps_missing_user_in_mapping() {
    // A group lists users that the mapping lacks
    let user_to_group = Vec::new();
    let groups = vec![(0, info(&["alice", "bob"]))];

    let group_set = GroupSets::from_maps(user_to_group, groups);

    assert_eq!(group_set.get_user_to_group_mappings().len(), 2);
    assert_eq!(group_set.find_group("alice"), Some(0));
    assert_eq!(group_set.find_group("bob"), Some(0));
}

#[test]
fn tests_test_from_maps_wrong_group_mapping() {
    // The mapping points to the wrong group
    let user_to_group = vec![("alice".to_string(), 1)];
    let groups = vec![(0, info(&["alice"]))];

    let group_set = GroupSets::from_maps(user_to_group, groups);

    assert_eq!(group_set.find_group("alice"), Some(0));
}

#[test]
fn tests_test_from_maps_empty_groups_removed() {
    let user_to_group = Vec::new();
    let groups = vec![(0, info(&[])), (1, info(&["alice"]))];

    let group_set = GroupSets::from_maps(user_to_group, groups);

    let live = group_set.get_groups();
    assert_eq!(live.len(), 1);
    assert!(!live.iter().any(|(id, _)| *id == 0));
    assert!(live.iter().any(|(id, _)| *id == 1));
    assert_eq!(group_set.find_group("alice"), Some(1));
}

#[test]
fn tests_test_from_maps_orphaned_users_removed() {
    // Users in the mapping but in no group are dropped
    let user_to_group = vec![("alice".to_string(), 0), ("orphan".to_string(), 0)];
    let groups = vec![(0, info(&["alice"]))];

    let group_set = GroupSets::from_maps(user_to_group, groups);

    assert_eq!(group_set.get_user_to_group_mappings().len(), 1);
    assert!(group_set.find_group("alice").is_some());
    assert!(group_set.find_group("orphan").is_none());
}
