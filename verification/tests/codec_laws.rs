use commenter::stomp::{ParseError, RawFrame, StompClientFrame, StompFrame};

fn header<'a>(frame: &'a RawFrame, name: &str) -> Option<&'a str> {
    // The last pair wins, as the parsed mapping does.
    frame
        .headers
        .iter()
        .rev()
        .find(|(n, _)| n == name)
        .map(|(_, v)| v.as_str())
}

#[test]
fn serialized_message_frame_parses_back() {
    let frame = StompFrame {
        command: "MESSAGE".to_owned(),
        headers: vec![
            ("destination".to_owned(), "room-1".to_owned()),
            ("id".to_owned(), "x".to_owned()),
            ("action".to_owned(), "CREATED".to_owned()),
        ],
        text: "hi".to_owned(),
    };
    let wire = frame.encode();
    assert_eq!(wire, "MESSAGE\ndestination:room-1\nid:x\naction:CREATED\n\nhi");

    let parsed = RawFrame::parse(wire.as_bytes()).unwrap();
    assert_eq!(parsed.command, "MESSAGE");
    assert_eq!(parsed.headers.len(), 3);
    assert_eq!(header(&parsed, "destination"), Some("room-1"));
    assert_eq!(header(&parsed, "id"), Some("x"));
    assert_eq!(header(&parsed, "action"), Some("CREATED"));
    assert_eq!(parsed.body, Some(b"hi".to_vec()));
}

#[test]
fn serialized_frame_with_empty_body_and_no_headers_parses_back() {
    let frame = StompFrame {
        command: "MESSAGE".to_owned(),
        headers: Vec::new(),
        text: String::new(),
    };
    let wire = frame.encode();
    assert_eq!(wire, "MESSAGE\n\n");
    let parsed = RawFrame::parse(wire.as_bytes()).unwrap();
    assert_eq!(parsed.command, "MESSAGE");
    assert!(parsed.headers.is_empty());
    assert_eq!(parsed.body, Some(Vec::new()));
}

#[test]
fn serialized_frame_with_non_ascii_text_parses_back() {
    let frame = StompFrame {
        command: "MESSAGE".to_owned(),
        headers: vec![("destination".to_owned(), "sälóñ".to_owned())],
        text: "héllo → wörld".to_owned(),
    };
    let wire = frame.encode();
    let parsed = RawFrame::parse(wire.as_bytes()).unwrap();
    assert_eq!(header(&parsed, "destination"), Some("sälóñ"));
    assert_eq!(parsed.body, Some("héllo → wörld".as_bytes().to_vec()));
}

#[test]
fn crlf_and_lf_variants_decode_to_equal_frames() {
    let frames = [
        "DISCONNECT\n\n\0",
        "SUBSCRIBE\ndestination:room-1\nid:s1\n\n\0",
        "UNSUBSCRIBE\nid:s1\n\n\0",
        "SEND\naction:CREATE\ndestination:room-1\n\nhello\0",
        "SEND\naction:UPDATE\nid:x\n\nnew\0",
        "SEND\naction:DELETE\nid:x\n\n\0",
    ];
    for lf in frames {
        let crlf = lf.replace('\n', "\r\n");
        let a = StompClientFrame::new(lf.as_bytes()).unwrap();
        let b = StompClientFrame::new(crlf.as_bytes()).unwrap();
        assert_eq!(a, b);
    }
}

#[test]
fn mixed_line_endings_decode_like_uniform_ones() {
    let mixed = "SUBSCRIBE\r\ndestination:room-1\nid:s1\r\n\n\0";
    let uniform = "SUBSCRIBE\ndestination:room-1\nid:s1\n\n\0";
    assert_eq!(
        StompClientFrame::new(mixed.as_bytes()).unwrap(),
        StompClientFrame::new(uniform.as_bytes()).unwrap()
    );
}

#[test]
fn frame_without_line_feed_has_no_command() {
    assert_eq!(
        StompClientFrame::new(b"DISCONNECT"),
        Err(ParseError::MissingCommand)
    );
}

#[test]
fn unknown_command_is_rejected() {
    assert_eq!(
        StompClientFrame::new(b"BEGIN\n\n\0"),
        Err(ParseError::UnknownCommand)
    );
}

#[test]
fn header_without_colon_is_rejected() {
    assert_eq!(
        StompClientFrame::new(b"SUBSCRIBE\nbroken header\n\n\0"),
        Err(ParseError::MalformedHeader)
    );
}

#[test]
fn header_with_two_colons_is_rejected() {
    assert_eq!(
        StompClientFrame::new(b"SUBSCRIBE\ndestination:a:b\nid:s1\n\n\0"),
        Err(ParseError::MalformedHeader)
    );
}

#[test]
fn send_without_action_is_rejected() {
    assert_eq!(
        StompClientFrame::new(b"SEND\ndestination:room-1\n\nhello\0"),
        Err(ParseError::MissingAction)
    );
}

#[test]
fn send_with_unknown_action_is_rejected() {
    assert_eq!(
        StompClientFrame::new(b"SEND\naction:ARCHIVE\ndestination:room-1\n\nhello\0"),
        Err(ParseError::UnknownAction)
    );
}

#[test]
fn create_without_destination_is_rejected() {
    assert_eq!(
        StompClientFrame::new(b"SEND\naction:CREATE\n\nhello\0"),
        Err(ParseError::MissingDestination)
    );
}

#[test]
fn update_without_id_is_rejected() {
    assert_eq!(
        StompClientFrame::new(b"SEND\naction:UPDATE\n\nnew\0"),
        Err(ParseError::MissingId)
    );
}

#[test]
fn subscribe_with_empty_destination_is_rejected() {
    assert_eq!(
        StompClientFrame::new(b"SUBSCRIBE\ndestination:\nid:s1\n\n\0"),
        Err(ParseError::MissingDestination)
    );
}

#[test]
fn subscribe_with_empty_id_is_rejected() {
    assert_eq!(
        StompClientFrame::new(b"SUBSCRIBE\ndestination:room-1\nid:\n\n\0"),
        Err(ParseError::MissingId)
    );
}

#[test]
fn create_with_invalid_utf8_body_is_rejected() {
    let mut bytes = b"SEND\naction:CREATE\ndestination:room-1\n\n".to_vec();
    bytes.extend_from_slice(&[0xFF, 0xFE]);
    assert_eq!(
        StompClientFrame::new(&bytes),
        Err(ParseError::InvalidBody)
    );
}

#[test]
fn disconnect_with_invalid_utf8_body_is_accepted() {
    let mut bytes = b"DISCONNECT\n\n".to_vec();
    bytes.extend_from_slice(&[0xFF, 0xFE]);
    assert_eq!(
        StompClientFrame::new(&bytes),
        Ok(StompClientFrame::DISCONNECT)
    );
}

#[test]
fn repeated_header_takes_the_last_value() {
    let parsed = StompClientFrame::new(b"UNSUBSCRIBE\nid:first\nid:second\n\n\0").unwrap();
    assert_eq!(parsed, StompClientFrame::UNSUBSCRIBE("second".to_owned()));
}

#[test]
fn body_may_contain_line_feeds() {
    let parsed = StompClientFrame::new(b"SEND\naction:CREATE\ndestination:d\n\nline one\nline two\0")
        .unwrap();
    assert_eq!(
        parsed,
        StompClientFrame::SEND(commenter::stomp::SendClientFrame::CREATE {
            destination: "d".to_owned(),
            text: "line one\nline two".to_owned(),
        })
    );
}
