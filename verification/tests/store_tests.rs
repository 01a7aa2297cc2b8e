use minasan::store::ChatStorage;

fn sorted(mut v: Vec<String>) -> Vec<String> {
    v.sort();
    v
}

#[test]
fn add_chat_gives_message_and_empty_users() {
    let mut st = ChatStorage::new();
    st.add_chat(7, 42);
    assert_eq!(st.get_message_id(7), Some(42));
    assert_eq!(st.get_users(7), Some(Vec::new()));
}

#[test]
fn user_ops_follow_set_semantics() {
    let mut st = ChatStorage::new();
    st.add_chat(1, 10);
    assert_eq!(st.add_user(1, "alice".to_string()), Some(()));
    assert_eq!(st.add_user(1, "bob".to_string()), Some(()));
    // a duplicate add is a no-op
    assert_eq!(st.add_user(1, "alice".to_string()), Some(()));
    // removing an absent user is a no-op
    assert_eq!(st.remove_user(1, "carol".to_string()), Some(()));
    let users = sorted(st.get_users(1).unwrap());
    assert_eq!(users, vec!["alice".to_string(), "bob".to_string()]);
    assert_eq!(st.remove_user(1, "alice".to_string()), Some(()));
    assert_eq!(st.get_users(1).unwrap(), vec!["bob".to_string()]);
}

#[test]
fn untracked_conversation_reports_not_found() {
    let mut st = ChatStorage::new();
    assert_eq!(st.add_user(5, "alice".to_string()), None);
    assert_eq!(st.remove_user(5, "alice".to_string()), None);
    assert_eq!(st.clean_users(5), None);
    assert_eq!(st.get_users(5), None);
    assert_eq!(st.get_message_id(5), None);
    assert_eq!(st.remove_chat(5), None);
}

#[test]
fn remove_chat_forgets_users_and_message() {
    let mut st = ChatStorage::new();
    st.add_chat(3, 30);
    st.add_user(3, "alice".to_string()).unwrap();
    assert_eq!(st.remove_chat(3), Some(()));
    assert_eq!(st.get_users(3), None);
    assert_eq!(st.get_message_id(3), None);
}

#[test]
fn remove_chat_keeps_poll_index_entries() {
    let mut st = ChatStorage::new();
    st.add_chat(3, 30);
    st.update_poll(3, "p1".to_string());
    assert_eq!(st.remove_chat(3), Some(()));
    // the stale entry is tolerated and still resolves
    assert_eq!(st.poll2chat(&"p1".to_string()), Some(3));
}

#[test]
fn poll_index_resolves_and_overwrites() {
    let mut st = ChatStorage::new();
    st.update_poll(9, "poll-a".to_string());
    assert_eq!(st.poll2chat(&"poll-a".to_string()), Some(9));
    assert_eq!(st.poll2chat(&"poll-b".to_string()), None);
    st.update_poll(11, "poll-a".to_string());
    assert_eq!(st.poll2chat(&"poll-a".to_string()), Some(11));
}

#[test]
fn update_message_overwrites_and_creates() {
    let mut st = ChatStorage::new();
    st.update_message(2, 5);
    assert_eq!(st.get_message_id(2), Some(5));
    // the message entry alone does not make the conversation tracked
    assert_eq!(st.get_users(2), None);
    st.add_chat(2, 6);
    st.update_message(2, 7);
    assert_eq!(st.get_message_id(2), Some(7));
}

#[test]
fn clean_users_empties_in_place() {
    let mut st = ChatStorage::new();
    st.add_chat(4, 40);
    st.add_user(4, "alice".to_string()).unwrap();
    st.add_user(4, "bob".to_string()).unwrap();
    assert_eq!(st.clean_users(4), Some(()));
    assert_eq!(st.get_users(4), Some(Vec::new()));
    assert_eq!(st.get_message_id(4), Some(40));
}

#[test]
fn hundred_distinct_adds_lose_nothing() {
    let mut st = ChatStorage::new();
    st.add_chat(1, 1);
    for k in 0..100 {
        assert_eq!(st.add_user(1, format!("user{k}")), Some(()));
    }
    let users = st.get_users(1).unwrap();
    assert_eq!(users.len(), 100);
    for k in 0..100 {
        assert!(users.contains(&format!("user{k}")));
    }
}
