use minasan::commands::{mention_message, update_users, AnswerOutcome};
use minasan::store::ChatStorage;

#[test]
fn answer_on_unknown_poll_changes_nothing() {
    let mut st = ChatStorage::new();
    let r = update_users(&mut st, &"nope".to_string(), "alice".to_string(), &vec![0]);
    assert_eq!(r, AnswerOutcome::UnknownPoll);
}

#[test]
fn consent_adds_the_answering_user() {
    let mut st = ChatStorage::new();
    st.add_chat(1, 10);
    st.update_poll(1, "p".to_string());
    let r = update_users(&mut st, &"p".to_string(), "alice".to_string(), &vec![0]);
    assert_eq!(r, AnswerOutcome::Added);
    assert_eq!(st.get_users(1).unwrap(), vec!["alice".to_string()]);
}

#[test]
fn consent_without_active_message_is_skipped() {
    let mut st = ChatStorage::new();
    // a poll entry may be stale: its conversation is no longer tracked
    st.add_chat(1, 10);
    st.update_poll(1, "p".to_string());
    st.remove_chat(1).unwrap();
    let r = update_users(&mut st, &"p".to_string(), "alice".to_string(), &vec![0]);
    assert_eq!(r, AnswerOutcome::NotTracked);
    assert_eq!(st.get_users(1), None);
}

#[test]
fn decline_changes_nothing() {
    let mut st = ChatStorage::new();
    st.add_chat(1, 10);
    st.update_poll(1, "p".to_string());
    st.add_user(1, "bob".to_string()).unwrap();
    let r = update_users(&mut st, &"p".to_string(), "alice".to_string(), &vec![1]);
    assert_eq!(r, AnswerOutcome::Declined);
    assert_eq!(st.get_users(1).unwrap(), vec!["bob".to_string()]);
}

#[test]
fn retracted_answer_removes_the_user() {
    let mut st = ChatStorage::new();
    st.add_chat(1, 10);
    st.update_poll(1, "p".to_string());
    st.add_user(1, "alice".to_string()).unwrap();
    let r = update_users(&mut st, &"p".to_string(), "alice".to_string(), &Vec::new());
    assert_eq!(r, AnswerOutcome::Removed);
    assert_eq!(st.get_users(1).unwrap(), Vec::<String>::new());
}

#[test]
fn out_of_poll_option_is_an_anomaly() {
    let mut st = ChatStorage::new();
    st.add_chat(1, 10);
    st.update_poll(1, "p".to_string());
    let r = update_users(&mut st, &"p".to_string(), "alice".to_string(), &vec![7]);
    assert_eq!(r, AnswerOutcome::Anomaly);
    assert_eq!(st.get_users(1).unwrap(), Vec::<String>::new());
}

#[test]
fn mention_message_joins_usernames() {
    let users = vec!["alice".to_string(), "bob".to_string()];
    assert_eq!(mention_message(&users), "@alice @bob");
    assert_eq!(mention_message(&vec!["solo".to_string()]), "@solo");
}

#[test]
fn mention_message_without_users_explains_itself() {
    assert_eq!(mention_message(&Vec::new()), "No user provided any @username!!!");
}
