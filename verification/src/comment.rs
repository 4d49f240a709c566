//! The canonical comment record that crosses every boundary, its tagged
//! binary codec for the event bus, and the constructors the edge uses to
//! build records from client commands.
//!
//! On the wire a comment is three length-delimited string fields (id,
//! group id, text — tags 1 to 3) followed by the state as a small integer
//! (tag 4). Field identity is by tag; decoding is strict and an unknown
//! state value is a decode error.

use vstd::prelude::*;

use crate::varint::{spec_varint, spec_varint_decode, lemma_varint_round_trip, push_varint,
    read_varint};
use crate::text::utf8_to_string;
use crate::stomp::StompFrame;
use vstd::slice::{slice_subrange, slice_to_vec};
use vstd::utf8::{valid_utf8, decode_utf8, encode_utf8};

verus! {

broadcast use vstd::seq_lib::group_seq_lib_default, vstd::seq::group_seq_axioms,
    vstd::utf8::encode_utf8_valid_utf8, vstd::utf8::encode_utf8_decode_utf8;

/// Field tags on the wire: three strings and the state integer.
pub const TAG_ID: u8 = 0x0A;

pub const TAG_GROUP: u8 = 0x12;

pub const TAG_TEXT: u8 = 0x1A;

pub const TAG_STATE: u8 = 0x20;

/// The lifecycle state a comment record carries.
#[derive(Clone, Copy, PartialEq, Eq, Structural, Debug)]
pub enum CommentState {
    Created,
    Updated,
    Deleted,
}

impl CommentState {
    /// The wire integer of this state.
    pub open spec fn spec_as_i32(self) -> i32 {
        match self {
            CommentState::Created => 0,
            CommentState::Updated => 1,
            CommentState::Deleted => 2,
        }
    }

    /// The wire integer of this state: CREATED is 0, UPDATED 1, DELETED 2.
    pub fn as_i32(self) -> (r: i32)
        ensures
            r == self.spec_as_i32(),
            0 <= r <= 2,
    {
        match self {
            CommentState::Created => 0,
            CommentState::Updated => 1,
            CommentState::Deleted => 2,
        }
    }

    /// The state a wire integer denotes, if any.
    pub fn from_i32(v: i32) -> (r: Option<CommentState>)
        ensures
            match r {
                Some(s) => 0 <= v <= 2 && s.spec_as_i32() == v,
                None => !(0 <= v <= 2),
            },
    {
        if v == 0 {
            Some(CommentState::Created)
        } else if v == 1 {
            Some(CommentState::Updated)
        } else if v == 2 {
            Some(CommentState::Deleted)
        } else {
            None
        }
    }

    /// The protocol name of this state.
    pub open spec fn spec_str_name(self) -> Seq<char> {
        match self {
            CommentState::Created => "CREATED"@,
            CommentState::Updated => "UPDATED"@,
            CommentState::Deleted => "DELETED"@,
        }
    }

    /// The protocol name of this state, as sent in the `action` header.
    pub fn as_str_name(self) -> (r: &'static str)
        ensures
            r@ == self.spec_str_name(),
    {
        match self {
            CommentState::Created => "CREATED",
            CommentState::Updated => "UPDATED",
            CommentState::Deleted => "DELETED",
        }
    }
}

/// The canonical comment record: a stable id, the routing group, the
/// payload text, and the state as its wire integer.
#[derive(Debug)]
pub struct Comment {
    pub id: String,
    pub group_id: String,
    pub text: String,
    pub state: i32,
}

/// Spec-level image of a `Comment`.
pub struct CommentView {
    pub id: Seq<char>,
    pub group_id: Seq<char>,
    pub text: Seq<char>,
    pub state: int,
}

impl View for Comment {
    type V = CommentView;

    open spec fn view(&self) -> CommentView {
        CommentView {
            id: self.id@,
            group_id: self.group_id@,
            text: self.text@,
            state: self.state as int,
        }
    }
}

impl CommentView {
    /// A record fit for the bus: its state is one of the three named
    /// values.
    pub open spec fn wf(self) -> bool {
        0 <= self.state <= 2
    }
}

impl Clone for Comment {
    /// A clone is the same record.
    fn clone(&self) -> (r: Self)
        ensures
            r == *self,
    {
        Comment {
            id: self.id.clone(),
            group_id: self.group_id.clone(),
            text: self.text.clone(),
            state: self.state,
        }
    }
}

impl vstd::std_specs::cmp::PartialEqSpecImpl for Comment {
    open spec fn obeys_eq_spec() -> bool {
        true
    }

    open spec fn eq_spec(&self, other: &Comment) -> bool {
        self@ == other@
    }
}

impl PartialEq for Comment {
    fn eq(&self, other: &Comment) -> (r: bool) {
        self.id.eq(&other.id) && self.group_id.eq(&other.group_id) && self.text.eq(&other.text)
            && self.state == other.state
    }
}

/// One length-delimited string field: tag, byte length, UTF-8 bytes.
pub open spec fn spec_string_field(tag: u8, s: Seq<char>) -> Seq<u8> {
    seq![tag] + spec_varint(encode_utf8(s).len()) + encode_utf8(s)
}

/// The serialized record: the three string fields in tag order, then the
/// state field.
pub open spec fn spec_encode_comment(c: CommentView) -> Seq<u8> {
    spec_string_field(TAG_ID, c.id) + spec_string_field(TAG_GROUP, c.group_id) + spec_string_field(
        TAG_TEXT,
        c.text,
    ) + seq![TAG_STATE] + spec_varint(c.state as nat)
}

/// Why a bus record failed to decode.
#[derive(Clone, Copy, PartialEq, Eq, Structural, Debug)]
pub enum DecodeError {
    /// The bytes do not have the expected field structure, a length
    /// overruns the buffer, a string is not valid UTF-8, or bytes trail
    /// the last field.
    Malformed,
    /// The state integer is not one of the three named values.
    InvalidState,
}

/// Reads one length-delimited string field from the front of `bytes`:
/// the decoded characters and the bytes consumed.
pub open spec fn spec_read_string_field(bytes: Seq<u8>, tag: u8) -> Option<(Seq<char>, int)> {
    if bytes.len() == 0 || bytes[0] != tag {
        None
    } else {
        match spec_varint_decode(bytes.skip(1)) {
            None => None,
            Some((l, c)) => {
                let start = 1 + c;
                if l > bytes.len() - start {
                    None
                } else {
                    let data = bytes.subrange(start, start + l);
                    if valid_utf8(data) {
                        Some((decode_utf8(data), start + l))
                    } else {
                        None
                    }
                }
            },
        }
    }
}

/// Decodes one record, strictly: the three string fields in tag order,
/// the state field, and nothing after it. The exact error tells a
/// structural fault from an unknown state value.
pub open spec fn spec_decode_comment(bytes: Seq<u8>) -> Result<CommentView, DecodeError> {
    match spec_read_string_field(bytes, TAG_ID) {
        None => Err(DecodeError::Malformed),
        Some((id, c1)) => match spec_read_string_field(bytes.skip(c1), TAG_GROUP) {
            None => Err(DecodeError::Malformed),
            Some((group_id, c2)) => match spec_read_string_field(bytes.skip(c1 + c2), TAG_TEXT) {
                None => Err(DecodeError::Malformed),
                Some((text, c3)) => {
                    let rest = bytes.skip(c1 + c2 + c3);
                    if rest.len() == 0 || rest[0] != TAG_STATE {
                        Err(DecodeError::Malformed)
                    } else {
                        match spec_varint_decode(rest.skip(1)) {
                            None => Err(DecodeError::Malformed),
                            Some((v, c4)) => {
                                if 1 + c4 != rest.len() {
                                    Err(DecodeError::Malformed)
                                } else if v > 2 {
                                    Err(DecodeError::InvalidState)
                                } else {
                                    Ok(CommentView { id, group_id, text, state: v as int })
                                }
                            },
                        }
                    }
                },
            },
        },
    }
}

/// Law: a well-formed record decodes from its own encoding, exactly.
pub proof fn lemma_comment_round_trip(c: CommentView)
    requires
        c.wf(),
        encode_utf8(c.id).len() <= u64::MAX,
        encode_utf8(c.group_id).len() <= u64::MAX,
        encode_utf8(c.text).len() <= u64::MAX,
    ensures
        spec_decode_comment(spec_encode_comment(c)) == Ok::<CommentView, DecodeError>(c),
{
    let f1 = spec_string_field(TAG_ID, c.id);
    let f2 = spec_string_field(TAG_GROUP, c.group_id);
    let f3 = spec_string_field(TAG_TEXT, c.text);
    let st = seq![TAG_STATE] + spec_varint(c.state as nat);
    let bytes = spec_encode_comment(c);
    assert(bytes =~= f1 + (f2 + (f3 + st)));
    lemma_read_string_field(TAG_ID, c.id, f2 + (f3 + st));
    assert(bytes.skip(f1.len() as int) =~= f2 + (f3 + st));
    lemma_read_string_field(TAG_GROUP, c.group_id, f3 + st);
    assert(bytes.skip(f1.len() as int).skip(f2.len() as int) =~= f3 + st);
    assert(bytes.skip(f1.len() as int + f2.len() as int) =~= f3 + st);
    lemma_read_string_field(TAG_TEXT, c.text, st);
    assert(bytes.skip(f1.len() as int + f2.len() as int + f3.len() as int) =~= st);
    assert(st[0] == TAG_STATE);
    lemma_varint_round_trip(c.state as nat, Seq::empty());
    assert(spec_varint(c.state as nat) + Seq::<u8>::empty() =~= spec_varint(c.state as nat));
    assert(st.skip(1) =~= spec_varint(c.state as nat));
    assert(st.len() == 1 + spec_varint(c.state as nat).len());
}

/// Reading a serialized string field from its own bytes, with anything
/// appended, yields the same characters back and consumes the field.
proof fn lemma_read_string_field(tag: u8, s: Seq<char>, rest: Seq<u8>)
    requires
        encode_utf8(s).len() <= u64::MAX,
    ensures
        spec_read_string_field(spec_string_field(tag, s) + rest, tag) == Some(
            (s, spec_string_field(tag, s).len() as int),
        ),
{
    let eb = encode_utf8(s);
    let field = spec_string_field(tag, s);
    let bytes = field + rest;
    assert(bytes[0] == tag);
    lemma_varint_round_trip(eb.len(), eb + rest);
    assert(bytes.skip(1) =~= spec_varint(eb.len()) + (eb + rest));
    let vlen = spec_varint(eb.len()).len() as int;
    let start = 1 + vlen;
    assert(bytes.len() - start == eb.len() + rest.len());
    assert(bytes.subrange(start, start + eb.len()) =~= eb);
    assert(field.len() == start + eb.len());
}

impl Comment {
    /// Serializes the record for the bus, exactly as `spec_encode_comment`
    /// describes.
    pub fn encode_to_vec(&self) -> (r: Vec<u8>)
        requires
            self@.wf(),
        ensures
            r@ == spec_encode_comment(self@),
    {
        let mut out: Vec<u8> = Vec::new();
        push_string_field(&mut out, TAG_ID, &self.id);
        push_string_field(&mut out, TAG_GROUP, &self.group_id);
        push_string_field(&mut out, TAG_TEXT, &self.text);
        out.push(TAG_STATE);
        push_varint(&mut out, self.state as u64);
        proof {
            assert(out@ =~= spec_encode_comment(self@));
        }
        out
    }

    /// Decodes one bus record, exactly as `spec_decode_comment` describes.
    pub fn decode(payload: &[u8]) -> (r: Result<Comment, DecodeError>)
        ensures
            match r {
                Ok(c) => spec_decode_comment(payload@) == Ok::<CommentView, DecodeError>(c@),
                Err(e) => spec_decode_comment(payload@) == Err::<CommentView, DecodeError>(e),
            },
    {
        proof {
            assert(payload@.skip(0) =~= payload@);
        }
        let n: usize = payload.len();
        match read_string_field(payload, 0, TAG_ID) {
            None => Err(DecodeError::Malformed),
            Some((id, c1)) => {
                match read_string_field(payload, c1, TAG_GROUP) {
                    None => Err(DecodeError::Malformed),
                    Some((group_id, c2)) => {
                        proof {
                            assert(payload@.skip(c1 as int).skip(c2 as int) =~= payload@.skip(
                                c1 as int + c2 as int,
                            ));
                        }
                        match read_string_field(payload, c1 + c2, TAG_TEXT) {
                            None => Err(DecodeError::Malformed),
                            Some((text, c3)) => {
                                let pos = c1 + c2 + c3;
                                proof {
                                    assert(payload@.skip(c1 as int + c2 as int).skip(c3 as int)
                                        =~= payload@.skip(pos as int));
                                }
                                let ghost rest = payload@.skip(pos as int);
                                if pos == n {
                                    return Err(DecodeError::Malformed);
                                }
                                let tag_byte = *vstd::slice::slice_index_get(payload, pos);
                                proof {
                                    assert(rest[0] == payload@[pos as int]);
                                }
                                if tag_byte != TAG_STATE {
                                    return Err(DecodeError::Malformed);
                                }
                                proof {
                                    assert(rest.skip(1) =~= payload@.skip(pos as int + 1));
                                }
                                match read_varint(payload, pos + 1) {
                                    None => Err(DecodeError::Malformed),
                                    Some((v, c4)) => {
                                        if pos + 1 + c4 != n {
                                            Err(DecodeError::Malformed)
                                        } else if v > 2 {
                                            Err(DecodeError::InvalidState)
                                        } else {
                                            Ok(
                                                Comment {
                                                    id,
                                                    group_id,
                                                    text,
                                                    state: v as i32,
                                                },
                                            )
                                        }
                                    },
                                }
                            },
                        }
                    },
                }
            },
        }
    }
}

/// Appends one length-delimited string field.
fn push_string_field(out: &mut Vec<u8>, tag: u8, s: &String)
    ensures
        final(out)@ == old(out)@ + spec_string_field(tag, s@),
{
    out.push(tag);
    let bytes = s.as_str().as_bytes();
    push_varint(out, bytes.len() as u64);
    let mut tail = slice_to_vec(bytes);
    out.append(&mut tail);
    proof {
        assert(final(out)@ =~= old(out)@ + spec_string_field(tag, s@));
    }
}

/// Reads one length-delimited string field starting at `pos`, mirroring
/// `spec_read_string_field` on the suffix.
fn read_string_field(s: &[u8], pos: usize, tag: u8) -> (r: Option<(String, usize)>)
    requires
        pos <= s@.len(),
    ensures
        match r {
            Some(p) => {
                &&& 1 <= p.1
                &&& pos + p.1 <= s@.len()
                &&& spec_read_string_field(s@.skip(pos as int), tag) == Some((p.0@, p.1 as int))
            },
            None => spec_read_string_field(s@.skip(pos as int), tag) is None,
        },
{
    let ghost suffix = s@.skip(pos as int);
    let n: usize = s.len();
    if pos == n {
        return None;
    }
    let first = *vstd::slice::slice_index_get(s, pos);
    proof {
        assert(suffix[0] == s@[pos as int]);
    }
    if first != tag {
        return None;
    }
    proof {
        assert(suffix.skip(1) =~= s@.skip(pos as int + 1));
    }
    match read_varint(s, pos + 1) {
        None => None,
        Some((l, c)) => {
            let start = pos + 1 + c;
            if l > (n - start) as u64 {
                None
            } else {
                let l_us = l as usize;
                let data = slice_subrange(s, start, start + l_us);
                proof {
                    assert(data@ =~= suffix.subrange(1 + c as int, 1 + c as int + l as int));
                }
                match utf8_to_string(slice_to_vec(data)) {
                    None => None,
                    Some(text) => Some((text, 1 + c + l_us)),
                }
            }
        },
    }
}

/// Relies on `uuid::Uuid::new_v4` and its hyphenated `Display` rendering:
/// a freshly drawn random identifier always prints as 36 characters.
#[verifier::external_body]
fn fresh_comment_id() -> (r: String)
    ensures
        r@.len() == 36,
{
    uuid::Uuid::new_v4().to_string()
}

impl Comment {
    /// A record for a client CREATE: a fresh id, the client's destination
    /// as the group, the client's text, state CREATED.
    pub fn new_create(destination: String, text: String) -> (r: Comment)
        ensures
            r@.id.len() == 36,
            r@.group_id == destination@,
            r@.text == text@,
            r@.state == 0,
    {
        Comment {
            id: fresh_comment_id(),
            group_id: destination,
            text,
            state: CommentState::Created.as_i32(),
        }
    }

    /// A record for a client UPDATE: the client's id and new text, the
    /// group inherited from the stored record, state UPDATED.
    pub fn new_update(id: String, text: String, stored: &Comment) -> (r: Comment)
        ensures
            r@.id == id@,
            r@.group_id == stored@.group_id,
            r@.text == text@,
            r@.state == 1,
    {
        Comment {
            id,
            group_id: stored.group_id.clone(),
            text,
            state: CommentState::Updated.as_i32(),
        }
    }

    /// A record for a client DELETE: the client's id, group and text both
    /// inherited from the stored record, state DELETED.
    pub fn new_delete(id: String, stored: &Comment) -> (r: Comment)
        ensures
            r@.id == id@,
            r@.group_id == stored@.group_id,
            r@.text == stored@.text,
            r@.state == 2,
    {
        Comment {
            id,
            group_id: stored.group_id.clone(),
            text: stored.text.clone(),
            state: CommentState::Deleted.as_i32(),
        }
    }
}

/// The protocol name of a wire state integer.
pub open spec fn spec_state_name(state: int) -> Seq<char> {
    if state == 0 {
        "CREATED"@
    } else if state == 1 {
        "UPDATED"@
    } else if state == 2 {
        "DELETED"@
    } else {
        Seq::empty()
    }
}

/// The MESSAGE frame that carries a comment to subscribers: destination,
/// id and action headers, the comment text as body.
pub open spec fn spec_message_frame(c: CommentView) -> crate::stomp::FrameView {
    crate::stomp::FrameView {
        command: "MESSAGE"@,
        headers: seq![
            ("destination"@, c.group_id),
            ("id"@, c.id),
            ("action"@, spec_state_name(c.state)),
        ],
        text: c.text,
    }
}

impl StompFrame {
    /// Builds the MESSAGE frame for one comment record.
    pub fn new(comment: &Comment) -> (r: StompFrame)
        requires
            comment@.wf(),
        ensures
            r@ == spec_message_frame(comment@),
    {
        let state = CommentState::from_i32(comment.state).unwrap();
        let mut headers: Vec<(String, String)> = Vec::new();
        headers.push(("destination".to_owned(), comment.group_id.clone()));
        headers.push(("id".to_owned(), comment.id.clone()));
        headers.push(("action".to_owned(), state.as_str_name().to_owned()));
        let r = StompFrame {
            command: "MESSAGE".to_owned(),
            headers,
            text: comment.text.clone(),
        };
        proof {
            assert(r@.headers =~= spec_message_frame(comment@).headers);
        }
        r
    }
}

} // verus!
