use commenter::comment::{Comment, DecodeError};
use commenter::hotstorage::{CommentStore, HotStorageError};

fn record(id: &str, group_id: &str, text: &str, state: i32) -> Comment {
    Comment {
        id: id.to_owned(),
        group_id: group_id.to_owned(),
        text: text.to_owned(),
        state,
    }
}

#[test]
fn created_then_updated_record_merge_into_one_row() {
    let mut store = CommentStore::new();
    let mut commits = 0;

    let created = record("x", "room-1", "hello", 0).encode_to_vec();
    if store.handle_message(Some(&created), 10).is_ok() {
        commits += 1;
    }
    let row = store.get_comment(&"x".to_owned()).unwrap();
    assert_eq!(row, record("x", "room-1", "hello", 0));

    let updated = record("x", "ignored-group", "new", 1).encode_to_vec();
    if store.handle_message(Some(&updated), 11).is_ok() {
        commits += 1;
    }
    let row = store.get_comment(&"x".to_owned()).unwrap();
    // Text and state follow the update; the group stays as first seen.
    assert_eq!(row, record("x", "room-1", "new", 1));

    // One commit per successful store write.
    assert_eq!(commits, 2);
}

#[test]
fn deleted_record_keeps_the_inherited_text() {
    let mut store = CommentStore::new();
    let stored = record("x", "room-1", "old", 0);
    store
        .handle_message(Some(&stored.encode_to_vec()), 0)
        .unwrap();

    // The edge builds a DELETE from the prior state.
    let deletion = Comment::new_delete("x".to_owned(), &stored);
    store
        .handle_message(Some(&deletion.encode_to_vec()), 1)
        .unwrap();

    let row = store.get_comment(&"x".to_owned()).unwrap();
    assert_eq!(row, record("x", "room-1", "old", 2));
}

#[test]
fn rows_are_kept_apart_by_id() {
    let mut store = CommentStore::new();
    store
        .handle_message(Some(&record("x", "room-1", "a", 0).encode_to_vec()), 0)
        .unwrap();
    store
        .handle_message(Some(&record("y", "room-2", "b", 0).encode_to_vec()), 1)
        .unwrap();
    store
        .handle_message(Some(&record("x", "room-1", "c", 1).encode_to_vec()), 2)
        .unwrap();

    assert_eq!(
        store.get_comment(&"x".to_owned()).unwrap(),
        record("x", "room-1", "c", 1)
    );
    assert_eq!(
        store.get_comment(&"y".to_owned()).unwrap(),
        record("y", "room-2", "b", 0)
    );
    assert!(store.get_comment(&"z".to_owned()).is_none());
}

#[test]
fn missing_payload_reports_the_offset_and_writes_nothing() {
    let mut store = CommentStore::new();
    assert_eq!(
        store.handle_message(None, 42),
        Err(HotStorageError::MissingPayload(42))
    );
    assert!(store.get_comment(&"x".to_owned()).is_none());
}

#[test]
fn undecodable_payload_is_an_encoding_error_and_writes_nothing() {
    let mut store = CommentStore::new();
    assert_eq!(
        store.handle_message(Some(&[9, 9, 9]), 0),
        Err(HotStorageError::Encoding(DecodeError::Malformed))
    );
    let mut bad_state = record("x", "room-1", "hi", 0).encode_to_vec();
    let last = bad_state.len() - 1;
    bad_state[last] = 9;
    assert_eq!(
        store.handle_message(Some(&bad_state), 1),
        Err(HotStorageError::Encoding(DecodeError::InvalidState))
    );
    assert!(store.get_comment(&"x".to_owned()).is_none());
}
