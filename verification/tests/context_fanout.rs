use commenter::comment::Comment;
use commenter::context::{ApplicationContext, ContextError, DispatchOutcome};
use commenter::stomp::{RawFrame, StompClientFrame};

fn created(id: &str, group_id: &str, text: &str) -> Comment {
    Comment {
        id: id.to_owned(),
        group_id: group_id.to_owned(),
        text: text.to_owned(),
        state: 0,
    }
}

fn header<'a>(frame: &'a RawFrame, name: &str) -> Option<&'a str> {
    frame
        .headers
        .iter()
        .rev()
        .find(|(n, _)| n == name)
        .map(|(_, v)| v.as_str())
}

#[test]
fn ids_are_dense_and_never_reused() {
    let mut ctx = ApplicationContext::new();
    let a = ctx.add_user();
    let b = ctx.add_user();
    ctx.remove_user(a);
    let c = ctx.add_user();
    assert_eq!(a, 1);
    assert_eq!(b, 2);
    assert_eq!(c, 3);
}

#[test]
fn subscribe_requires_a_registered_connection() {
    let mut ctx = ApplicationContext::new();
    assert_eq!(
        ctx.subscribe(7, "room-1".to_owned()),
        Err(ContextError::UnknownUser)
    );
    let a = ctx.add_user();
    assert_eq!(ctx.subscribe(a, "room-1".to_owned()), Ok(()));
}

#[test]
fn broadcast_enqueues_exactly_once_per_subscriber() {
    let mut ctx = ApplicationContext::new();
    let a = ctx.add_user();
    let b = ctx.add_user();
    ctx.subscribe(a, "room-1".to_owned()).unwrap();
    // Re-subscribing is an idempotent success and must not double frames.
    ctx.subscribe(a, "room-1".to_owned()).unwrap();
    ctx.subscribe(b, "room-2".to_owned()).unwrap();

    let payload = created("x", "room-1", "hi").encode_to_vec();
    ctx.deliver_comment(&payload).unwrap();

    let for_a = ctx.take_outbound(a);
    let for_b = ctx.take_outbound(b);
    assert_eq!(for_a.len(), 1);
    assert_eq!(for_b.len(), 0);
    // The queue is drained by the take.
    assert_eq!(ctx.take_outbound(a).len(), 0);
}

#[test]
fn removed_connection_receives_nothing_anywhere() {
    let mut ctx = ApplicationContext::new();
    let a = ctx.add_user();
    let b = ctx.add_user();
    ctx.subscribe(a, "room-1".to_owned()).unwrap();
    ctx.subscribe(a, "room-2".to_owned()).unwrap();
    ctx.subscribe(b, "room-1".to_owned()).unwrap();
    ctx.remove_user(a);

    ctx.deliver_comment(&created("x", "room-1", "hi").encode_to_vec())
        .unwrap();
    ctx.deliver_comment(&created("y", "room-2", "ho").encode_to_vec())
        .unwrap();

    assert_eq!(ctx.take_outbound(a).len(), 0);
    assert_eq!(ctx.take_outbound(b).len(), 1);
    // The id is gone from the registry too.
    assert_eq!(
        ctx.subscribe(a, "room-1".to_owned()),
        Err(ContextError::UnknownUser)
    );
}

#[test]
fn unsubscribe_stops_delivery_for_that_group_only() {
    let mut ctx = ApplicationContext::new();
    let a = ctx.add_user();
    ctx.subscribe(a, "room-1".to_owned()).unwrap();
    ctx.subscribe(a, "room-2".to_owned()).unwrap();
    ctx.unsubscribe(a, &"room-1".to_owned()).unwrap();

    ctx.deliver_comment(&created("x", "room-1", "hi").encode_to_vec())
        .unwrap();
    ctx.deliver_comment(&created("y", "room-2", "ho").encode_to_vec())
        .unwrap();

    let frames = ctx.take_outbound(a);
    assert_eq!(frames.len(), 1);
    assert_eq!(frames[0].text, "ho");
}

#[test]
fn disconnect_is_dispatched_without_producing() {
    let mut ctx = ApplicationContext::new();
    let a = ctx.add_user();
    let frame = StompClientFrame::new(b"DISCONNECT\n\n\0").unwrap();
    match ctx.handle_client_frame(a, frame) {
        Ok(DispatchOutcome::Done) => {}
        other => panic!("disconnect must dispatch to Done, got {:?}", other),
    }
    ctx.remove_user(a);
    assert_eq!(
        ctx.subscribe(a, "room-1".to_owned()),
        Err(ContextError::UnknownUser)
    );
}

#[test]
fn subscribe_frame_then_bus_record_reaches_the_client() {
    let mut ctx = ApplicationContext::new();
    let a = ctx.add_user();
    let frame = StompClientFrame::new(b"SUBSCRIBE\ndestination:room-1\nid:s1\n\n\0").unwrap();
    match ctx.handle_client_frame(a, frame) {
        Ok(DispatchOutcome::Done) => {}
        other => panic!("subscribe must dispatch to Done, got {:?}", other),
    }

    let payload = created("x", "room-1", "hi").encode_to_vec();
    ctx.deliver_comment(&payload).unwrap();

    let frames = ctx.take_outbound(a);
    assert_eq!(frames.len(), 1);
    let wire = frames[0].encode();
    let parsed = RawFrame::parse(wire.as_bytes()).unwrap();
    assert_eq!(parsed.command, "MESSAGE");
    assert_eq!(header(&parsed, "destination"), Some("room-1"));
    assert_eq!(header(&parsed, "id"), Some("x"));
    assert_eq!(header(&parsed, "action"), Some("CREATED"));
    assert_eq!(parsed.body, Some(b"hi".to_vec()));
}

#[test]
fn send_frames_are_handed_back_for_production() {
    let mut ctx = ApplicationContext::new();
    let a = ctx.add_user();
    let frame =
        StompClientFrame::new(b"SEND\naction:CREATE\ndestination:room-1\n\nhello\0").unwrap();
    let send = match ctx.handle_client_frame(a, frame) {
        Ok(DispatchOutcome::Produce(send)) => send,
        other => panic!("a SEND must be handed back, got {:?}", other),
    };
    // The caller then builds and produces the record.
    let record = match send {
        commenter::stomp::SendClientFrame::CREATE { destination, text } => {
            Comment::new_create(destination, text)
        }
        other => panic!("expected CREATE, got {:?}", other),
    };
    assert_eq!(record.group_id, "room-1");
    assert_eq!(record.text, "hello");
    assert_eq!(record.state, 0);
    assert_eq!(record.id.len(), 36);

    // What went to the bus decodes to the same record.
    let decoded = Comment::decode(&record.encode_to_vec()).unwrap();
    assert_eq!(decoded, record);
}

#[test]
fn update_frame_resolves_prior_state() {
    let mut ctx = ApplicationContext::new();
    let a = ctx.add_user();
    let frame = StompClientFrame::new(b"SEND\naction:UPDATE\nid:x\n\nnew\0").unwrap();
    let send = match ctx.handle_client_frame(a, frame) {
        Ok(DispatchOutcome::Produce(send)) => send,
        other => panic!("a SEND must be handed back, got {:?}", other),
    };
    // The prior state the lookup service would answer with.
    let stored = created("x", "room-1", "old");
    let record = match send {
        commenter::stomp::SendClientFrame::UPDATE { id, text } => {
            Comment::new_update(id, text, &stored)
        }
        other => panic!("expected UPDATE, got {:?}", other),
    };
    assert_eq!(record.id, "x");
    assert_eq!(record.group_id, "room-1");
    assert_eq!(record.text, "new");
    assert_eq!(record.state, 1);
    assert_eq!(Comment::decode(&record.encode_to_vec()).unwrap(), record);
}

#[test]
fn delete_frame_inherits_prior_text() {
    let mut ctx = ApplicationContext::new();
    let a = ctx.add_user();
    let frame = StompClientFrame::new(b"SEND\naction:DELETE\nid:x\n\n\0").unwrap();
    let send = match ctx.handle_client_frame(a, frame) {
        Ok(DispatchOutcome::Produce(send)) => send,
        other => panic!("a SEND must be handed back, got {:?}", other),
    };
    let stored = created("x", "room-1", "old");
    let record = match send {
        commenter::stomp::SendClientFrame::DELETE { id } => Comment::new_delete(id, &stored),
        other => panic!("expected DELETE, got {:?}", other),
    };
    assert_eq!(record.id, "x");
    assert_eq!(record.group_id, "room-1");
    assert_eq!(record.text, "old");
    assert_eq!(record.state, 2);
}

#[test]
fn delivery_order_is_kept_per_subscriber() {
    // The bus keeps one group on one partition, so the consumer sees the
    // records in produced order; the edge must keep that order per queue.
    let mut ctx = ApplicationContext::new();
    let a = ctx.add_user();
    ctx.subscribe(a, "room-1".to_owned()).unwrap();

    let mut bus: Vec<Vec<u8>> = Vec::new();
    for n in 0..5 {
        bus.push(created(&format!("id-{n}"), "room-1", &format!("t{n}")).encode_to_vec());
    }
    for payload in &bus {
        ctx.deliver_comment(payload).unwrap();
    }

    let frames = ctx.take_outbound(a);
    assert_eq!(frames.len(), 5);
    for (n, frame) in frames.iter().enumerate() {
        assert_eq!(frame.text, format!("t{n}"));
    }
}

#[test]
fn undecodable_bus_record_changes_nothing() {
    let mut ctx = ApplicationContext::new();
    let a = ctx.add_user();
    ctx.subscribe(a, "room-1".to_owned()).unwrap();
    assert!(ctx.deliver_comment(&[1, 2, 3]).is_err());
    assert_eq!(ctx.take_outbound(a).len(), 0);
}
