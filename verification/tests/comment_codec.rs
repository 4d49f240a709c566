use commenter::comment::{Comment, CommentState, DecodeError};

fn record(id: &str, group_id: &str, text: &str, state: i32) -> Comment {
    Comment {
        id: id.to_owned(),
        group_id: group_id.to_owned(),
        text: text.to_owned(),
        state,
    }
}

#[test]
fn created_record_has_the_expected_bytes() {
    let c = record("x", "room-1", "hi", 0);
    let bytes = c.encode_to_vec();
    let expected: Vec<u8> = vec![
        0x0A, 1, b'x', // id
        0x12, 6, b'r', b'o', b'o', b'm', b'-', b'1', // group_id
        0x1A, 2, b'h', b'i', // text
        0x20, 0, // state
    ];
    assert_eq!(bytes, expected);
}

#[test]
fn records_round_trip_for_all_three_states() {
    let samples = [
        record("x", "room-1", "hi", 0),
        record("a-long-identifier", "another group", "", 1),
        record("x", "room-1", "old text", 2),
    ];
    for c in samples {
        let bytes = c.encode_to_vec();
        let back = Comment::decode(&bytes).unwrap();
        assert_eq!(back, c);
    }
}

#[test]
fn long_fields_round_trip_through_multi_byte_lengths() {
    let c = record(&"i".repeat(300), &"g".repeat(200), &"t".repeat(70000), 1);
    let bytes = c.encode_to_vec();
    assert_eq!(Comment::decode(&bytes).unwrap(), c);
}

#[test]
fn non_ascii_fields_round_trip() {
    let c = record("x", "zïmmer-1", "héllo → wörld", 0);
    let bytes = c.encode_to_vec();
    assert_eq!(Comment::decode(&bytes).unwrap(), c);
}

#[test]
fn unknown_state_is_a_decode_error() {
    let mut bytes = record("x", "room-1", "hi", 0).encode_to_vec();
    let last = bytes.len() - 1;
    bytes[last] = 7;
    assert_eq!(Comment::decode(&bytes), Err(DecodeError::InvalidState));
}

#[test]
fn truncated_record_is_malformed() {
    let bytes = record("x", "room-1", "hi", 0).encode_to_vec();
    assert_eq!(
        Comment::decode(&bytes[..bytes.len() - 3]),
        Err(DecodeError::Malformed)
    );
}

#[test]
fn trailing_bytes_are_malformed() {
    let mut bytes = record("x", "room-1", "hi", 0).encode_to_vec();
    bytes.push(0);
    assert_eq!(Comment::decode(&bytes), Err(DecodeError::Malformed));
}

#[test]
fn empty_payload_is_malformed() {
    assert_eq!(Comment::decode(&[]), Err(DecodeError::Malformed));
}

#[test]
fn new_create_mints_a_fresh_full_length_id() {
    let a = Comment::new_create("room-1".to_owned(), "hello".to_owned());
    assert_eq!(a.id.len(), 36);
    assert_eq!(a.group_id, "room-1");
    assert_eq!(a.text, "hello");
    assert_eq!(a.state, CommentState::Created.as_i32());
    assert_eq!(a.state, 0);
}

#[test]
fn new_update_inherits_the_stored_group() {
    let stored = record("x", "room-1", "old", 0);
    let c = Comment::new_update("x".to_owned(), "new".to_owned(), &stored);
    assert_eq!(c, record("x", "room-1", "new", 1));
}

#[test]
fn new_delete_inherits_group_and_text() {
    let stored = record("x", "room-1", "old", 0);
    let c = Comment::new_delete("x".to_owned(), &stored);
    assert_eq!(c, record("x", "room-1", "old", 2));
}

#[test]
fn state_names_and_integers_match_the_protocol() {
    assert_eq!(CommentState::Created.as_str_name(), "CREATED");
    assert_eq!(CommentState::Updated.as_str_name(), "UPDATED");
    assert_eq!(CommentState::Deleted.as_str_name(), "DELETED");
    assert_eq!(CommentState::from_i32(0), Some(CommentState::Created));
    assert_eq!(CommentState::from_i32(1), Some(CommentState::Updated));
    assert_eq!(CommentState::from_i32(2), Some(CommentState::Deleted));
    assert_eq!(CommentState::from_i32(3), None);
    assert_eq!(CommentState::from_i32(-1), None);
}
