use ai::groups::{GroupInfo, GroupSets, USER_GROUP_RETENTION_NANOS};
use ai::memory::{
    group_rows, group_sets_from_rows, join_in, load_history, solo_in, Entry, GroupRow, Memory, Sender,
    MEMORY_MAX_MESSAGES, MEMORY_RETENTION_NANOS,
};

const NOW: i64 = 1_700_000_000_000_000_000;
const SECOND: i64 = 1_000_000_000;

fn entry(sender: Sender, receiver: &str, timestamp: i64, message: &str) -> Entry {
    Entry { sender, receiver: receiver.to_string(), timestamp, message: message.to_string() }
}

fn row(user: &str, receiver: &str, group_id: i64, last_modified: i64) -> GroupRow {
    GroupRow { user: user.to_string(), receiver: receiver.to_string(), group_id, last_modified }
}

fn memory_with(rows: Vec<(String, Entry)>, groups: Vec<GroupRow>, now: i64) -> Memory {
    Memory::load(&rows, &groups, now)
}

#[test]
fn load_removes_old_entries() {
    let old_time = NOW - (MEMORY_RETENTION_NANOS + SECOND);
    let recent_time = NOW - (MEMORY_RETENTION_NANOS - SECOND);
    let rows = vec![
        ("u1".to_string(), entry(Sender::User, "r1", old_time, "old_message")),
        ("u1".to_string(), entry(Sender::Assistant, "r1", recent_time, "recent_message")),
        ("u1".to_string(), entry(Sender::User, "r2", recent_time, "recent_2")),
    ];
    let memory = memory_with(rows, Vec::new(), NOW);
    let h1 = memory.user_history("u1", "r1");
    let h2 = memory.user_history("u1", "r2");
    assert_eq!(h1.len(), 1);
    assert_eq!(h1[0].1, "recent_message");
    assert_eq!(h1[0].0, Sender::Assistant);
    assert_eq!(h2.len(), 1);
    assert_eq!(h2[0].1, "recent_2");
}

#[test]
fn load_keeps_most_recent_messages() {
    let mut rows = Vec::new();
    for i in 0..(MEMORY_MAX_MESSAGES + 5) {
        let t = NOW - SECOND * 100 + i as i64;
        rows.push(("user1".to_string(), entry(Sender::User, "receiver1", t, &format!("msg{}", i))));
    }
    let memory = memory_with(rows, Vec::new(), NOW);
    let history = memory.user_history("user1", "receiver1");
    assert_eq!(history.len(), MEMORY_MAX_MESSAGES);
    assert_eq!(history[0].1, "msg5");
    assert_eq!(history[MEMORY_MAX_MESSAGES - 1].1, format!("msg{}", MEMORY_MAX_MESSAGES + 4));
}

#[test]
fn load_drops_users_without_fresh_entries() {
    let rows = vec![("gone".to_string(), entry(Sender::User, "r1", NOW - MEMORY_RETENTION_NANOS, "stale"))];
    let memory = memory_with(rows, Vec::new(), NOW);
    assert!(memory.user_history("gone", "r1").is_empty());
    assert_eq!(load_history(&vec![("gone".to_string(), entry(Sender::User, "r1", NOW - MEMORY_RETENTION_NANOS, "x"))], NOW).len(), 0);
}

#[test]
fn add_entry_appends_in_order() {
    let mut memory = memory_with(Vec::new(), Vec::new(), NOW);
    memory.add_entry("user1", entry(Sender::User, "receiver1", NOW, "message1"));
    memory.add_entry("user1", entry(Sender::Assistant, "receiver1", NOW + 1, "message2"));
    memory.add_entry("user2", entry(Sender::User, "receiver2", NOW + 2, "messageA"));
    let h1 = memory.user_history("user1", "receiver1");
    let h2 = memory.user_history("user2", "receiver2");
    assert_eq!(h1.len(), 2);
    assert_eq!(h1[0].1, "message1");
    assert_eq!(h1[1].1, "message2");
    assert_eq!(h2.len(), 1);
    assert_eq!(h2[0].1, "messageA");
    assert!(memory.user_history("user2", "receiver1").is_empty());
}

#[test]
fn clear_history_for_joined_users_keeps_others() {
    let mut memory = memory_with(Vec::new(), Vec::new(), NOW);
    memory.add_entry("user1", entry(Sender::User, "receiver1", NOW, "message1"));
    memory.add_entry("user2", entry(Sender::User, "receiver1", NOW, "message2"));
    memory.add_entry("user3", entry(Sender::User, "receiver1", NOW, "message3"));
    memory.add_entry("user1", entry(Sender::User, "receiver2", NOW, "elsewhere"));

    let mut sets = Vec::new();
    join_in(&mut sets, "receiver1", "user1", "user2", NOW).unwrap();
    memory.set_joined_users(sets);

    memory.clear_history_for_joined_users("user1", "receiver1");

    assert_eq!(memory.user_history("user1", "receiver1").len(), 0);
    assert_eq!(memory.user_history("user2", "receiver1").len(), 0);
    assert_eq!(memory.user_history("user3", "receiver1").len(), 1);
    assert_eq!(memory.user_history("user1", "receiver2").len(), 1);
}

#[test]
fn clear_history_for_single_user() {
    let mut memory = memory_with(Vec::new(), Vec::new(), NOW);
    memory.add_entry("user1", entry(Sender::User, "receiver1", NOW, "message1"));
    memory.add_entry("user2", entry(Sender::User, "receiver1", NOW, "message2"));
    memory.clear_history_for_joined_users("user1", "receiver1");
    assert_eq!(memory.user_history("user1", "receiver1").len(), 0);
    assert_eq!(memory.user_history("user2", "receiver1").len(), 1);
}

#[test]
fn expired_groups_are_absent_after_load() {
    let old_time = NOW - (USER_GROUP_RETENTION_NANOS + SECOND);
    let recent_time = NOW - (USER_GROUP_RETENTION_NANOS - SECOND);
    let groups = vec![
        row("user1", "receiver1", 1, old_time),
        row("user2", "receiver1", 1, old_time),
        row("user3", "receiver1", 2, recent_time),
        row("user4", "receiver1", 2, recent_time),
    ];
    let memory = memory_with(Vec::new(), groups, NOW);
    assert_eq!(memory.get_joined_users("user1", "receiver1"), vec!["user1"]);
    assert_eq!(memory.get_joined_users("user2", "receiver1"), vec!["user2"]);
    assert_eq!(memory.get_joined_users("user3", "receiver1"), vec!["user3", "user4"]);
    assert_eq!(memory.get_joined_users_excluding_self("user4", "receiver1"), vec!["user3"]);
}

#[test]
fn singleton_groups_are_not_loaded() {
    let groups = vec![row("user1", "receiver1", 0, NOW), row("user2", "receiver1", 1, NOW)];
    let memory = memory_with(Vec::new(), groups, NOW);
    assert_eq!(memory.get_joined_users("user2", "receiver1"), vec!["user2"]);
}

#[test]
fn joined_users_survive_storing_and_loading() {
    let mut sets = Vec::new();
    join_in(&mut sets, "receiver1", "user2", "user1", NOW).unwrap();
    join_in(&mut sets, "receiver1", "user3", "user9", NOW).unwrap();
    solo_in(&mut sets, "receiver1", "user9", NOW).unwrap();
    let rows = group_rows(&sets);
    // user3 and user9 are singletons now and are not stored
    assert_eq!(rows.len(), 2);
    let memory = memory_with(Vec::new(), rows, NOW + SECOND);
    assert_eq!(memory.get_joined_users("user1", "receiver1"), vec!["user1", "user2"]);
    assert_eq!(memory.get_joined_users("user3", "receiver1"), vec!["user3"]);
    assert_eq!(memory.get_joined_users("user1", "other"), vec!["user1"]);
}

#[test]
fn negative_group_ids_are_ignored() {
    let groups = vec![row("a", "c", -1, NOW), row("b", "c", -1, NOW)];
    let memory = memory_with(Vec::new(), groups, NOW);
    assert_eq!(memory.get_joined_users("a", "c"), vec!["a"]);
}

#[test]
fn sender_names() {
    assert_eq!(Sender::User.as_str(), "user");
    assert_eq!(Sender::Assistant.as_str(), "assistant");
    assert_eq!(Sender::parse("assistant"), Some(Sender::Assistant));
    assert_eq!(Sender::parse("user"), Some(Sender::User));
    assert_eq!(Sender::parse("system"), None);
}

#[test]
fn union_is_symmetric_and_transitive() {
    let mut ab = GroupSets::new();
    ab.union("a", "b");
    let mut ba = GroupSets::new();
    ba.union("b", "a");
    assert_eq!(ab.find_group("a") == ab.find_group("b"), ba.find_group("a") == ba.find_group("b"));

    let mut g = GroupSets::new();
    g.union("a", "b");
    g.union("b", "c");
    assert_eq!(g.find_group("a"), g.find_group("c"));
    assert!(g.find_group("a").is_some());
}

#[test]
fn remove_user_leaves_a_singleton() {
    let mut g = GroupSets::new();
    g.union("a", "b");
    g.union("a", "c");
    let before = g.find_group("a");
    g.remove_user("b");
    assert_eq!(g.get_group_members("b"), vec!["b"]);
    assert_ne!(g.find_group("b"), before);
    assert_eq!(g.find_group("a"), g.find_group("c"));
    g.remove_user("nobody");
    assert_eq!(g.find_group("nobody"), None);
}

#[test]
fn from_maps_is_idempotent_on_valid_groups() {
    let mut g = GroupSets::new();
    g.union("a", "b");
    g.union("c", "d");
    g.union("a", "e");
    let again = GroupSets::from_maps(g.get_user_to_group_mappings(), g.get_groups());
    for u in ["a", "b", "c", "d", "e"] {
        assert_eq!(again.find_group(u), g.find_group(u));
    }
    assert_eq!(again.get_groups().len(), g.get_groups().len());
}

#[test]
fn from_maps_first_group_wins() {
    let groups = vec![
        (5, GroupInfo { members: vec!["x".to_string(), "y".to_string()], last_modified: NOW }),
        (3, GroupInfo { members: vec!["y".to_string(), "z".to_string()], last_modified: NOW }),
        (5, GroupInfo { members: vec!["w".to_string()], last_modified: NOW }),
    ];
    let g = GroupSets::from_maps(Vec::new(), groups);
    assert_eq!(g.find_group("y"), Some(5));
    assert_eq!(g.find_group("z"), Some(3));
    assert_eq!(g.find_group("w"), None);
    assert_eq!(g.next_group_id(), 6);
}

#[test]
fn expire_drops_old_and_singleton_groups() {
    let mut g = GroupSets::new();
    g.union_at("a", "b", NOW - USER_GROUP_RETENTION_NANOS);
    g.union_at("c", "d", NOW);
    g.add_user_at("e", NOW);
    g.expire_old_groups(NOW);
    assert_eq!(g.find_group("a"), None);
    assert_eq!(g.find_group("e"), None);
    assert_eq!(g.get_group_members("c").len(), 2);
}

#[test]
fn joined_history_merges_by_time() {
    let mut memory = memory_with(Vec::new(), Vec::new(), NOW);
    memory.add_entry("user1", entry(Sender::User, "c", NOW + 1, "Hello from user1!"));
    memory.add_entry("user1", entry(Sender::Assistant, "c", NOW + 2, "Hi user1!"));
    memory.add_entry("user2", entry(Sender::User, "c", NOW + 3, "Hello from user2!"));
    memory.add_entry("user2", entry(Sender::Assistant, "c", NOW + 4, "Hi user2!"));
    memory.add_entry("user3", entry(Sender::User, "c", NOW, "Hello from user3!"));
    memory.add_entry("user3", entry(Sender::User, "elsewhere", NOW, "not here"));
    let mut sets = Vec::new();
    join_in(&mut sets, "c", "user3", "user1", NOW).unwrap();
    join_in(&mut sets, "c", "user2", "user1", NOW).unwrap();
    memory.set_joined_users(sets);
    let lines: Vec<String> = memory.joined_history("user1", "c").into_iter().map(|l| l.1).collect();
    assert_eq!(
        lines,
        vec!["Hello from user3!", "Hello from user1!", "Hi user1!", "Hello from user2!", "Hi user2!"]
    );
    assert_eq!(memory.joined_history("nobody", "c").len(), 0);
}

#[test]
fn group_sets_from_rows_lists_every_channel() {
    let groups = vec![row("a", "c1", 0, NOW), row("b", "c1", 0, NOW), row("x", "c2", 4, NOW)];
    let sets = group_sets_from_rows(&groups, NOW);
    assert_eq!(sets.len(), 2);
    let c1 = &sets.iter().find(|(c, _)| c == "c1").unwrap().1;
    assert_eq!(c1.find_group("a"), Some(0));
    assert_eq!(c1.find_group("b"), Some(0));
    let c2 = &sets.iter().find(|(c, _)| c == "c2").unwrap().1;
    assert_eq!(c2.find_group("x"), None);
}
