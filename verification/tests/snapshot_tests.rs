use minasan::json::{encode_record, parse_record, SnapshotRecord};
use minasan::snapshot::SnapshotError;
use minasan::store::ChatStorage;

fn sorted(mut v: Vec<String>) -> Vec<String> {
    v.sort();
    v
}

#[test]
fn test_dump() {
    let mut chat_storage = ChatStorage::new();

    let chat_id = 0i64;
    chat_storage.add_chat(chat_id, 1);
    chat_storage.add_user(chat_id, "user1".to_string()).unwrap();
    chat_storage.add_user(chat_id, "user2".to_string()).unwrap();

    let chat_id = 123i64;
    chat_storage.add_chat(chat_id, 321);
    chat_storage.add_user(chat_id, "user3".to_string()).unwrap();
    chat_storage.add_user(chat_id, "user4".to_string()).unwrap();
    chat_storage.update_poll(chat_id, "12345".to_string());

    let files = chat_storage.dump();
    assert_eq!(files.len(), 2);

    let mut file_names = files.iter().map(|f| f.1.clone()).collect::<Vec<_>>();
    file_names.sort();
    let target = vec!["0.json".to_string(), "123.json".to_string()];

    assert_eq!(file_names, target);
}

#[test]
fn test_load() {
    let body1 = "{\"users\":[\"user1\",\"user2\"],\"message_id\":123,\"poll_id\":\"123456\"}";
    let body2 = "{\"users\":[\"user3\"],\"message_id\":890,\"poll_id\":\"null\"}";
    let files = vec![
        ("1.json".to_string(), body1.to_string()),
        ("2.json".to_string(), body2.to_string()),
    ];

    let chat_storage = ChatStorage::load(&files).unwrap();

    let (chat_id1, chat_id2) = (1i64, 2i64);
    let users1 = vec!["user1".to_string(), "user2".to_string()];
    let users2 = vec![String::from("user3")];
    let (message_id1, message_id2) = (123i32, 890i32);
    let (poll_id1, poll_id2) = (String::from("123456"), String::from("abc"));

    assert_eq!(sorted(chat_storage.get_users(chat_id1).unwrap()), users1);
    assert_eq!(sorted(chat_storage.get_users(chat_id2).unwrap()), users2);

    assert_eq!(chat_storage.get_message_id(chat_id1).unwrap(), message_id1);
    assert_eq!(chat_storage.get_message_id(chat_id2).unwrap(), message_id2);

    assert_eq!(chat_storage.poll2chat(&poll_id1).unwrap(), chat_id1);
    assert!(chat_storage.poll2chat(&poll_id2).is_none());
}

#[test]
fn test_load_dump_consistency() {
    let mut source = ChatStorage::new();

    let chat_id = 101i64;
    source.add_chat(chat_id, 1);
    source.add_user(chat_id, "usernamesome".to_string()).unwrap();
    source.add_user(chat_id, "user2".to_string()).unwrap();

    let chat_id = 100i64;
    source.add_chat(chat_id, 321);
    source.add_user(chat_id, "user3312".to_string()).unwrap();
    source.add_user(chat_id, "someuser1234".to_string()).unwrap();
    source.update_poll(chat_id, "12345".to_string());

    let dumped = source.dump();
    assert_eq!(dumped.len(), 2);

    let files = dumped.iter().map(|f| (f.1.clone(), f.2.clone())).collect::<Vec<_>>();
    let target = ChatStorage::load(&files).unwrap();

    for chat in [100i64, 101i64] {
        assert_eq!(
            sorted(source.get_users(chat).unwrap()),
            sorted(target.get_users(chat).unwrap())
        );
        assert_eq!(source.get_message_id(chat), target.get_message_id(chat));
    }
    assert_eq!(target.poll2chat(&"12345".to_string()), Some(100));
    assert_eq!(target.poll2chat(&"null".to_string()), None);
}

#[test]
fn load_null_poll_id_adds_no_index_entry() {
    let files = vec![(
        "5.json".to_string(),
        "{\"users\":[],\"message_id\":7,\"poll_id\":\"null\"}".to_string(),
    )];
    let st = ChatStorage::load(&files).unwrap();
    assert_eq!(st.get_message_id(5), Some(7));
    assert_eq!(st.poll2chat(&"null".to_string()), None);
}

#[test]
fn load_fails_on_malformed_name() {
    let good = (
        "1.json".to_string(),
        "{\"users\":[],\"message_id\":1,\"poll_id\":\"null\"}".to_string(),
    );
    let bad = (
        "abc.json".to_string(),
        "{\"users\":[],\"message_id\":1,\"poll_id\":\"null\"}".to_string(),
    );
    let files = vec![good, bad];
    assert!(matches!(ChatStorage::load(&files), Err(SnapshotError::MalformedName)));
}

#[test]
fn load_fails_on_missing_users_field() {
    let files = vec![(
        "1.json".to_string(),
        "{\"message_id\":1,\"poll_id\":\"null\"}".to_string(),
    )];
    assert!(matches!(ChatStorage::load(&files), Err(SnapshotError::MalformedRecord)));
}

#[test]
fn load_is_all_or_nothing() {
    let files = vec![
        (
            "1.json".to_string(),
            "{\"users\":[\"a\"],\"message_id\":1,\"poll_id\":\"null\"}".to_string(),
        ),
        ("2.json".to_string(), "not json at all".to_string()),
    ];
    assert!(ChatStorage::load(&files).is_err());
}

#[test]
fn load_accepts_whitespace_and_any_member_order() {
    let body = " {\n  \"poll_id\": \"p\",\n  \"users\": [ \"a\" , \"b\" ],\n  \"message_id\": -17\n} ";
    let files = vec![("-3.json".to_string(), body.to_string())];
    let st = ChatStorage::load(&files).unwrap();
    assert_eq!(st.get_message_id(-3), Some(-17));
    assert_eq!(sorted(st.get_users(-3).unwrap()), vec!["a".to_string(), "b".to_string()]);
    assert_eq!(st.poll2chat(&"p".to_string()), Some(-3));
}

#[test]
fn load_rejects_out_of_range_message_id() {
    let files = vec![(
        "1.json".to_string(),
        "{\"users\":[],\"message_id\":2147483648,\"poll_id\":\"null\"}".to_string(),
    )];
    assert!(matches!(ChatStorage::load(&files), Err(SnapshotError::MalformedRecord)));
}

#[test]
fn load_rejects_wrongly_typed_fields_and_trailing_text() {
    let wrong_type = "{\"users\":[\"a\"],\"message_id\":\"1\",\"poll_id\":\"null\"}";
    let fractional = "{\"users\":[],\"message_id\":1.5,\"poll_id\":\"null\"}";
    let trailing = "{\"users\":[],\"message_id\":1,\"poll_id\":\"null\"} x";
    for body in [wrong_type, fractional, trailing] {
        let files = vec![("1.json".to_string(), body.to_string())];
        assert!(ChatStorage::load(&files).is_err());
    }
}

#[test]
fn encode_writes_the_exact_body() {
    let rec = SnapshotRecord {
        message_id: 321,
        poll_id: "12345".to_string(),
        users: vec!["user3312".to_string()],
    };
    let body = encode_record(&rec);
    assert_eq!(
        body,
        "{\"message_id\":321,\"poll_id\":\"12345\",\"users\":[\"user3312\"]}"
    );
}

#[test]
fn encode_escapes_and_parse_decodes() {
    let odd = "a\"b\\c\nd".to_string();
    let rec = SnapshotRecord {
        message_id: -1,
        poll_id: "null".to_string(),
        users: vec![odd.clone()],
    };
    let body = encode_record(&rec);
    assert_eq!(
        body,
        "{\"message_id\":-1,\"poll_id\":\"null\",\"users\":[\"a\\\"b\\\\c\\u000ad\"]}"
    );
    let back = parse_record(&body).unwrap();
    assert_eq!(back.message_id, -1);
    assert_eq!(back.poll_id, "null");
    assert_eq!(back.users, vec![odd]);
}

#[test]
fn parse_decodes_unicode_escapes() {
    let body = "{\"users\":[\"\\u0041\\u00e9\"],\"message_id\":0,\"poll_id\":\"\\t\\\"q\\\"\"}";
    let rec = parse_record(body).unwrap();
    assert_eq!(rec.users, vec!["A\u{e9}".to_string()]);
    assert_eq!(rec.poll_id, "\t\"q\"");
}

#[test]
fn parse_rejects_surrogate_escape_and_unknown_member() {
    assert!(parse_record("{\"users\":[\"\\ud800\"],\"message_id\":0,\"poll_id\":\"x\"}").is_none());
    assert!(parse_record("{\"users\":[],\"message_id\":0,\"poll_id\":\"x\",\"extra\":1}").is_none());
}

#[test]
fn dump_output_is_json_for_serde() {
    let mut st = ChatStorage::new();
    st.add_chat(42, 9);
    st.add_user(42, "alice".to_string()).unwrap();
    st.update_poll(42, "p42".to_string());
    let files = st.dump();
    assert_eq!(files.len(), 1);
    assert_eq!(files[0].1, "42.json");
    let value: serde_json::Value = serde_json::from_str(&files[0].2).unwrap();
    assert_eq!(value.get("message_id").unwrap().as_i64().unwrap(), 9);
    assert_eq!(value.get("poll_id").unwrap().as_str().unwrap(), "p42");
    let users = value.get("users").unwrap().as_array().unwrap();
    assert_eq!(users.len(), 1);
    assert_eq!(users[0].as_str().unwrap(), "alice");
}
