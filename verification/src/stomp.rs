//! The STOMP-like frame codec.
//!
//! Inbound client frames are parsed from one byte buffer per frame:
//! a command line, header lines of the shape `name:value`, a blank line,
//! then the body up to an optional trailing NUL. Line endings may be `\n`
//! or `\r\n`, mixed freely. Outbound server frames are serialized with
//! `\n` endings and no NUL.
//!
//! The wire grammar is pinned down by the spec functions in this module
//! (`spec_parse`, `spec_decode`); every executable codec function is proved
//! equal to them, and the round-trip and line-ending laws at the bottom are
//! proved about them.

use vstd::prelude::*;

use crate::scan::{find_byte, count_byte, lemma_find_byte, lemma_find_byte_present,
    lemma_find_byte_absent, lemma_count_byte_zero, lemma_count_byte_one, lemma_count_byte_two,
    find_byte_from};
use crate::text::{utf8_to_string, string_eq_str};
use vstd::slice::{slice_subrange, slice_to_vec};
use vstd::utf8::{valid_utf8, decode_utf8, encode_utf8};
use vstd::string::StringExecFns;

verus! {

broadcast use vstd::seq_lib::group_seq_lib_default, vstd::seq::group_seq_axioms,
    vstd::utf8::encode_utf8_valid_utf8, vstd::utf8::encode_utf8_decode_utf8;

pub const LF: u8 = 10;

pub const CR: u8 = 13;

pub const COLON: u8 = 58;

pub const NUL: u8 = 0;

/// A server-to-client frame: one command, unordered headers, a text body.
pub struct StompFrame {
    pub command: String,
    pub headers: Vec<(String, String)>,
    pub text: String,
}

/// A client-to-server frame, already interpreted per command.
#[derive(Debug)]
pub enum StompClientFrame {
    SEND(SendClientFrame),
    SUBSCRIBE { destination: String, id: String },
    UNSUBSCRIBE(String),
    DISCONNECT,
}

/// The payload-bearing variants of a `SEND` frame.
#[derive(Debug)]
pub enum SendClientFrame {
    CREATE { destination: String, text: String },
    UPDATE { id: String, text: String },
    DELETE { id: String },
}

/// Why a client frame failed to parse.
#[derive(Clone, Copy, PartialEq, Eq, Structural, Debug)]
pub enum ParseError {
    /// No line terminator was found, so there is no command line.
    MissingCommand,
    /// A header line did not split into exactly one name and one value,
    /// or its name or value was not valid UTF-8.
    MalformedHeader,
    /// The command is not SEND, SUBSCRIBE, UNSUBSCRIBE or DISCONNECT.
    UnknownCommand,
    /// A SEND frame without an `action` header.
    MissingAction,
    /// A SEND frame whose `action` is not CREATE, UPDATE or DELETE.
    UnknownAction,
    /// A frame that requires a `destination` header lacks one.
    MissingDestination,
    /// A frame that requires an `id` header lacks one.
    MissingId,
    /// The body must carry text for this command but is not valid UTF-8.
    InvalidBody,
}

/// Spec-level image of a parsed wire frame, before command interpretation.
pub struct WireView {
    pub command: Seq<char>,
    pub headers: Map<Seq<char>, Seq<char>>,
    pub body: Option<Seq<u8>>,
}

/// Spec-level image of a `StompClientFrame`.
pub enum ClientFrameView {
    SEND(SendFrameView),
    SUBSCRIBE { destination: Seq<char>, id: Seq<char> },
    UNSUBSCRIBE(Seq<char>),
    DISCONNECT,
}

/// Spec-level image of a `SendClientFrame`.
pub enum SendFrameView {
    CREATE { destination: Seq<char>, text: Seq<char> },
    UPDATE { id: Seq<char>, text: Seq<char> },
    DELETE { id: Seq<char> },
}

impl View for SendClientFrame {
    type V = SendFrameView;

    open spec fn view(&self) -> SendFrameView {
        match self {
            SendClientFrame::CREATE { destination, text } => SendFrameView::CREATE {
                destination: destination@,
                text: text@,
            },
            SendClientFrame::UPDATE { id, text } => SendFrameView::UPDATE {
                id: id@,
                text: text@,
            },
            SendClientFrame::DELETE { id } => SendFrameView::DELETE { id: id@ },
        }
    }
}

impl View for StompClientFrame {
    type V = ClientFrameView;

    open spec fn view(&self) -> ClientFrameView {
        match self {
            StompClientFrame::SEND(f) => ClientFrameView::SEND(f@),
            StompClientFrame::SUBSCRIBE { destination, id } => ClientFrameView::SUBSCRIBE {
                destination: destination@,
                id: id@,
            },
            StompClientFrame::UNSUBSCRIBE(id) => ClientFrameView::UNSUBSCRIBE(id@),
            StompClientFrame::DISCONNECT => ClientFrameView::DISCONNECT,
        }
    }
}

/// Spec-level image of a `StompFrame`.
pub struct FrameView {
    pub command: Seq<char>,
    pub headers: Seq<(Seq<char>, Seq<char>)>,
    pub text: Seq<char>,
}

impl View for StompFrame {
    type V = FrameView;

    open spec fn view(&self) -> FrameView {
        FrameView { command: self.command@, headers: pairs_view(self.headers@), text: self.text@ }
    }
}

/// Header pairs as character sequences, in their on-wire order.
pub open spec fn pairs_view(hs: Seq<(String, String)>) -> Seq<(Seq<char>, Seq<char>)> {
    hs.map_values(|p: (String, String)| (p.0@, p.1@))
}

/// The mapping a header list denotes: inserted in order, a later value for
/// the same name wins.
pub open spec fn pairs_map(ps: Seq<(Seq<char>, Seq<char>)>) -> Map<Seq<char>, Seq<char>>
    decreases ps.len(),
{
    if ps.len() == 0 {
        Map::empty()
    } else {
        pairs_map(ps.drop_last()).insert(ps.last().0, ps.last().1)
    }
}

/// A line with its single optional trailing carriage return removed.
pub open spec fn strip_cr(line: Seq<u8>) -> Seq<u8> {
    if line.len() > 0 && line.last() == CR {
        line.drop_last()
    } else {
        line
    }
}

/// A body with its single optional trailing NUL removed.
pub open spec fn strip_nul(body: Seq<u8>) -> Seq<u8> {
    if body.len() > 0 && body.last() == NUL {
        body.drop_last()
    } else {
        body
    }
}

/// The header lines and the body of everything after the command line.
pub struct Sections {
    pub lines: Seq<Seq<u8>>,
    pub body: Option<Seq<u8>>,
}

/// Splits the bytes after the command line into header lines and body.
/// Each line ends at a `\n` (a preceding `\r` is stripped); the first empty
/// line ends the header section and the rest is the body. Bytes after the
/// last `\n` that never form a line are ignored, and without a blank line
/// there is no body.
pub open spec fn split_sections(bytes: Seq<u8>) -> Sections
    decreases bytes.len() via split_sections_decreases
{
    let i = find_byte(bytes, LF);
    if i < 0 {
        Sections { lines: Seq::empty(), body: None }
    } else {
        let line = strip_cr(bytes.take(i));
        let rest = bytes.skip(i + 1);
        if line.len() == 0 {
            Sections { lines: Seq::empty(), body: Some(strip_nul(rest)) }
        } else {
            let s = split_sections(rest);
            Sections { lines: seq![line] + s.lines, body: s.body }
        }
    }
}

#[via_fn]
proof fn split_sections_decreases(bytes: Seq<u8>) {
    lemma_find_byte(bytes, LF);
}

/// The name and value of one header line, split at its unique colon.
pub open spec fn split_header_line(line: Seq<u8>) -> Option<(Seq<u8>, Seq<u8>)> {
    if count_byte(line, COLON) == 1 {
        let i = find_byte(line, COLON);
        Some((line.take(i), line.skip(i + 1)))
    } else {
        None
    }
}

/// A header line is well-formed when it splits at exactly one colon and
/// both sides are valid UTF-8.
pub open spec fn header_line_ok(line: Seq<u8>) -> bool {
    match split_header_line(line) {
        Some((name, value)) => valid_utf8(name) && valid_utf8(value),
        None => false,
    }
}

pub open spec fn header_lines_ok(lines: Seq<Seq<u8>>) -> bool {
    forall|i: int| 0 <= i < lines.len() ==> header_line_ok(#[trigger] lines[i])
}

/// The decoded name/value pairs of well-formed header lines, in order.
pub open spec fn decoded_pairs(lines: Seq<Seq<u8>>) -> Seq<(Seq<char>, Seq<char>)> {
    lines.map_values(
        |line: Seq<u8>|
            {
                let (name, value) = split_header_line(line).unwrap();
                (decode_utf8(name), decode_utf8(value))
            },
    )
}

/// Parses one frame into its command, header mapping and raw body, or says
/// exactly why it cannot.
pub open spec fn spec_parse(bytes: Seq<u8>) -> Result<WireView, ParseError> {
    let i = find_byte(bytes, LF);
    if i < 0 {
        Err(ParseError::MissingCommand)
    } else {
        let cmd = strip_cr(bytes.take(i));
        let s = split_sections(bytes.skip(i + 1));
        if !valid_utf8(cmd) {
            Err(ParseError::UnknownCommand)
        } else if !header_lines_ok(s.lines) {
            Err(ParseError::MalformedHeader)
        } else {
            Ok(
                WireView {
                    command: decode_utf8(cmd),
                    headers: pairs_map(decoded_pairs(s.lines)),
                    body: s.body,
                },
            )
        }
    }
}

/// Interprets a SEND frame from its headers and raw body.
pub open spec fn spec_interpret_send(h: Map<Seq<char>, Seq<char>>, body: Option<Seq<u8>>) -> Result<
    ClientFrameView,
    ParseError,
> {
    if !h.contains_key("action"@) {
        Err(ParseError::MissingAction)
    } else {
        let action = h["action"@];
        let payload = if body is Some {
            body.unwrap()
        } else {
            Seq::empty()
        };
        if action == "CREATE"@ {
            if !valid_utf8(payload) {
                Err(ParseError::InvalidBody)
            } else if !h.contains_key("destination"@) {
                Err(ParseError::MissingDestination)
            } else {
                Ok(
                    ClientFrameView::SEND(
                        SendFrameView::CREATE {
                            destination: h["destination"@],
                            text: decode_utf8(payload),
                        },
                    ),
                )
            }
        } else if action == "UPDATE"@ {
            if !valid_utf8(payload) {
                Err(ParseError::InvalidBody)
            } else if !h.contains_key("id"@) {
                Err(ParseError::MissingId)
            } else {
                Ok(
                    ClientFrameView::SEND(
                        SendFrameView::UPDATE {
                            id: h["id"@],
                            text: decode_utf8(payload),
                        },
                    ),
                )
            }
        } else if action == "DELETE"@ {
            if !h.contains_key("id"@) {
                Err(ParseError::MissingId)
            } else {
                Ok(ClientFrameView::SEND(SendFrameView::DELETE { id: h["id"@] }))
            }
        } else {
            Err(ParseError::UnknownAction)
        }
    }
}

/// Interprets a parsed wire frame as a client command.
pub open spec fn spec_interpret(w: WireView) -> Result<ClientFrameView, ParseError> {
    if w.command == "SEND"@ {
        spec_interpret_send(w.headers, w.body)
    } else if w.command == "SUBSCRIBE"@ {
        if !w.headers.contains_key("destination"@) || w.headers["destination"@].len() == 0 {
            Err(ParseError::MissingDestination)
        } else if !w.headers.contains_key("id"@) || w.headers["id"@].len() == 0 {
            Err(ParseError::MissingId)
        } else {
            Ok(
                ClientFrameView::SUBSCRIBE {
                    destination: w.headers["destination"@],
                    id: w.headers["id"@],
                },
            )
        }
    } else if w.command == "UNSUBSCRIBE"@ {
        if !w.headers.contains_key("id"@) {
            Err(ParseError::MissingId)
        } else {
            Ok(ClientFrameView::UNSUBSCRIBE(w.headers["id"@]))
        }
    } else if w.command == "DISCONNECT"@ {
        Ok(ClientFrameView::DISCONNECT)
    } else {
        Err(ParseError::UnknownCommand)
    }
}

/// The whole inbound codec: bytes to client frame, or the exact error.
pub open spec fn spec_decode(bytes: Seq<u8>) -> Result<ClientFrameView, ParseError> {
    match spec_parse(bytes) {
        Ok(w) => spec_interpret(w),
        Err(e) => Err(e),
    }
}

/// One unfolding of `split_sections` at a known first line feed.
pub proof fn lemma_split_sections_step(bytes: Seq<u8>, j: int)
    requires
        0 <= j < bytes.len(),
        bytes[j] == LF,
        forall|k: int| 0 <= k < j ==> bytes[k] != LF,
    ensures
        strip_cr(bytes.take(j)).len() == 0 ==> split_sections(bytes) == (Sections {
            lines: Seq::<Seq<u8>>::empty(),
            body: Some(strip_nul(bytes.skip(j + 1))),
        }),
        strip_cr(bytes.take(j)).len() != 0 ==> {
            &&& split_sections(bytes).lines == seq![strip_cr(bytes.take(j))] + split_sections(
                bytes.skip(j + 1),
            ).lines
            &&& split_sections(bytes).body == split_sections(bytes.skip(j + 1)).body
        },
{
    lemma_find_byte_present(bytes, LF, j);
}

/// `split_sections` of bytes without a line feed: no lines, no body.
pub proof fn lemma_split_sections_end(bytes: Seq<u8>)
    requires
        forall|k: int| 0 <= k < bytes.len() ==> bytes[k] != LF,
    ensures
        split_sections(bytes) == (Sections { lines: Seq::<Seq<u8>>::empty(), body: None::<Seq<u8>> }),
{
    lemma_find_byte_absent(bytes, LF);
}

/// A wire frame before command interpretation: the command line, the header
/// pairs in on-wire order, and the raw body when a blank line introduced one.
pub struct RawFrame {
    pub command: String,
    pub headers: Vec<(String, String)>,
    pub body: Option<Vec<u8>>,
}

impl View for RawFrame {
    type V = WireView;

    open spec fn view(&self) -> WireView {
        WireView {
            command: self.command@,
            headers: pairs_map(pairs_view(self.headers@)),
            body: match self.body {
                Some(v) => Some(v@),
                None => None,
            },
        }
    }
}

impl RawFrame {
    /// Parses the bytes of one frame into command, headers and body,
    /// exactly as `spec_parse` describes.
    #[verifier::loop_isolation(false)]
    #[verifier::rlimit(100)]
    pub fn parse(input: &[u8]) -> (r: Result<RawFrame, ParseError>)
        ensures
            match r {
                Ok(f) => spec_parse(input@) == Ok::<WireView, ParseError>(f@),
                Err(e) => spec_parse(input@) == Err::<WireView, ParseError>(e),
            },
    {
        let len: usize = input.len();
        let first = find_byte_from(input, 0, LF);
        match first {
            None => {
                proof {
                    lemma_find_byte_absent(input@, LF);
                }
                Err(ParseError::MissingCommand)
            },
            Some(i0) => {
                proof {
                    lemma_find_byte_present(input@, LF, i0 as int);
                }
                let cmd_end: usize = if i0 > 0 && *vstd::slice::slice_index_get(input, i0 - 1)
                    == CR {
                    i0 - 1
                } else {
                    i0
                };
                proof {
                    if i0 > 0 {
                        assert(input@.take(i0 as int).last() == input@[i0 as int - 1]);
                    }
                    assert(strip_cr(input@.take(i0 as int)) =~= input@.subrange(
                        0,
                        cmd_end as int,
                    ));
                }
                let cmd_b = slice_to_vec(slice_subrange(input, 0, cmd_end));
                match utf8_to_string(cmd_b) {
                    None => Err(ParseError::UnknownCommand),
                    Some(command) => {
                        let ghost orig: Seq<u8> = input@.skip(i0 as int + 1);
                        let mut pos: usize = i0 + 1;
                        let mut headers: Vec<(String, String)> = Vec::new();
                        let ghost mut processed: Seq<Seq<u8>> = Seq::empty();
                        loop
                            invariant
                                i0 as int + 1 <= pos as int <= input@.len(),
                                split_sections(orig).lines =~= processed + split_sections(
                                    input@.skip(pos as int),
                                ).lines,
                                split_sections(orig).body == split_sections(
                                    input@.skip(pos as int),
                                ).body,
                                header_lines_ok(processed),
                                pairs_view(headers@) =~= decoded_pairs(processed),
                            decreases input@.len() - pos,
                        {
                            let ghost suf = input@.skip(pos as int);
                            proof {
                                assert(forall|k: int|
                                    0 <= k < suf.len() ==> suf[k] == input@[k + pos]);
                            }
                            match find_byte_from(input, pos, LF) {
                                None => {
                                    proof {
                                        lemma_split_sections_end(suf);
                                        assert(split_sections(orig).lines =~= processed);
                                        assert(decoded_pairs(split_sections(orig).lines) =~= pairs_view(
                                            headers@,
                                        ));
                                    }
                                    return Ok(RawFrame { command, headers, body: None });
                                },
                                Some(j) => {
                                    let line_end: usize = if j > pos && *vstd::slice::slice_index_get(
                                        input,
                                        j - 1,
                                    ) == CR {
                                        j - 1
                                    } else {
                                        j
                                    };
                                    proof {
                                        lemma_find_byte_present(suf, LF, j as int - pos as int);
                                        if j > pos {
                                            assert(suf.take(j as int - pos as int).last()
                                                == input@[j as int - 1]);
                                        }
                                        assert(strip_cr(suf.take(j as int - pos as int))
                                            =~= input@.subrange(pos as int, line_end as int));
                                        lemma_split_sections_step(suf, j as int - pos as int);
                                    }
                                    if line_end == pos {
                                        // The blank line: the rest is the body.
                                        let body_start: usize = j + 1;
                                        let body_end: usize = if len > body_start
                                            && *vstd::slice::slice_index_get(input, len - 1)
                                            == NUL {
                                            len - 1
                                        } else {
                                            len
                                        };
                                        proof {
                                            let rest = input@.skip(j as int + 1);
                                            assert(suf.skip(j as int - pos as int + 1) =~= rest);
                                            assert(forall|k: int|
                                                0 <= k < rest.len() ==> rest[k] == input@[k + j
                                                    + 1]);
                                            if rest.len() > 0 {
                                                assert(rest.last() == input@[input@.len() - 1]);
                                            }
                                            assert(strip_nul(rest) =~= input@.subrange(
                                                body_start as int,
                                                body_end as int,
                                            ));
                                            assert(split_sections(orig).lines =~= processed);
                                            assert(decoded_pairs(split_sections(orig).lines)
                                                =~= pairs_view(headers@));
                                        }
                                        let body_v = slice_to_vec(
                                            slice_subrange(input, body_start, body_end),
                                        );
                                        return Ok(
                                            RawFrame { command, headers, body: Some(body_v) },
                                        );
                                    } else {
                                        let line_slice = slice_subrange(input, pos, line_end);
                                        let ghost line = strip_cr(
                                            suf.take(j as int - pos as int),
                                        );
                                        proof {
                                            assert(line_slice@ == line);
                                            assert(split_sections(orig).lines[processed.len() as int]
                                                == line);
                                        }
                                        match parse_header_pair(line_slice) {
                                            Err(e) => {
                                                proof {
                                                    assert(!header_line_ok(
                                                        split_sections(orig).lines[processed.len() as int],
                                                    ));
                                                }
                                                return Err(e);
                                            },
                                            Ok(p) => {
                                                let ghost pview = (p.0@, p.1@);
                                                let ghost old_headers = headers@;
                                                let ghost old_processed = processed;
                                                headers.push(p);
                                                proof {
                                                    processed = processed.push(line);
                                                    assert forall|k: int|
                                                        0 <= k < processed.len() implies pairs_view(
                                                        headers@,
                                                    )[k] == decoded_pairs(processed)[k] by {
                                                        if k < old_processed.len() {
                                                            assert(pairs_view(headers@)[k]
                                                                == pairs_view(old_headers)[k]);
                                                            assert(decoded_pairs(processed)[k]
                                                                == decoded_pairs(old_processed)[k]);
                                                        } else {
                                                            assert(pairs_view(headers@)[k]
                                                                == pview);
                                                            assert(decoded_pairs(processed)[k]
                                                                == pview);
                                                        }
                                                    }
                                                    assert(pairs_view(headers@) =~= decoded_pairs(
                                                        processed,
                                                    ));
                                                    assert(suf.skip(j as int - pos as int + 1)
                                                        =~= input@.skip(j as int + 1));
                                                    assert(split_sections(suf).lines == seq![line]
                                                        + split_sections(
                                                        input@.skip(j as int + 1),
                                                    ).lines);
                                                    assert(split_sections(suf).body
                                                        == split_sections(
                                                        input@.skip(j as int + 1),
                                                    ).body);
                                                    assert(split_sections(orig).lines =~= processed
                                                        + split_sections(
                                                        input@.skip(j as int + 1),
                                                    ).lines);
                                                }
                                                pos = j + 1;
                                            },
                                        }
                                    }
                                },
                            }
                        }
                    },
                }
            },
        }
    }
}

/// Splits one header line at its single colon and decodes both sides.
fn parse_header_pair(line: &[u8]) -> (r: Result<(String, String), ParseError>)
    ensures
        match r {
            Ok(p) => header_line_ok(line@) && {
                let (nb, vb) = split_header_line(line@).unwrap();
                p.0@ == decode_utf8(nb) && p.1@ == decode_utf8(vb)
            },
            Err(e) => e == ParseError::MalformedHeader && !header_line_ok(line@),
        },
{
    let c_opt = find_byte_from(line, 0, COLON);
    match c_opt {
        None => {
            proof {
                lemma_count_byte_zero(line@, COLON);
            }
            Err(ParseError::MalformedHeader)
        },
        Some(c) => {
            let n: usize = line.len();
            assert(c < n);
            match find_byte_from(line, c + 1, COLON) {
                Some(c2) => {
                    proof {
                        lemma_count_byte_two(line@, COLON, c as int, c2 as int);
                    }
                    Err(ParseError::MalformedHeader)
                },
                None => {
                    proof {
                        lemma_count_byte_one(line@, COLON, c as int);
                        lemma_find_byte_present(line@, COLON, c as int);
                    }
                    let name_b = slice_to_vec(slice_subrange(line, 0, c));
                    let value_b = slice_to_vec(slice_subrange(line, c + 1, line.len()));
                    proof {
                        assert(name_b@ =~= line@.take(c as int));
                        assert(value_b@ =~= line@.skip(c as int + 1));
                    }
                    match utf8_to_string(name_b) {
                        None => Err(ParseError::MalformedHeader),
                        Some(name) => match utf8_to_string(value_b) {
                            None => Err(ParseError::MalformedHeader),
                            Some(value) => Ok((name, value)),
                        },
                    }
                },
            }
        },
    }
}

/// When index `j` is the last pair named `name`, the mapping holds its value.
pub proof fn lemma_pairs_map_last_match(ps: Seq<(Seq<char>, Seq<char>)>, name: Seq<char>, j: int)
    requires
        0 <= j < ps.len(),
        ps[j].0 == name,
        forall|k: int| j < k < ps.len() ==> ps[k].0 != name,
    ensures
        pairs_map(ps).contains_key(name),
        pairs_map(ps)[name] == ps[j].1,
    decreases ps.len(),
{
    if j == ps.len() - 1 {
    } else {
        assert(forall|k: int| 0 <= k < ps.drop_last().len() ==> ps.drop_last()[k] == ps[k]);
        lemma_pairs_map_last_match(ps.drop_last(), name, j);
    }
}

/// A name used by no pair is absent from the mapping.
pub proof fn lemma_pairs_map_absent(ps: Seq<(Seq<char>, Seq<char>)>, name: Seq<char>)
    requires
        forall|k: int| 0 <= k < ps.len() ==> ps[k].0 != name,
    ensures
        !pairs_map(ps).contains_key(name),
    decreases ps.len(),
{
    if ps.len() > 0 {
        assert(forall|k: int| 0 <= k < ps.drop_last().len() ==> ps.drop_last()[k] == ps[k]);
        lemma_pairs_map_absent(ps.drop_last(), name);
    }
}

/// The four command words are pairwise different character sequences.
pub proof fn lemma_commands_distinct()
    ensures
        "SEND"@ != "SUBSCRIBE"@,
        "SEND"@ != "UNSUBSCRIBE"@,
        "SEND"@ != "DISCONNECT"@,
        "SUBSCRIBE"@ != "UNSUBSCRIBE"@,
        "SUBSCRIBE"@ != "DISCONNECT"@,
        "UNSUBSCRIBE"@ != "DISCONNECT"@,
{
    reveal_strlit("SEND");
    reveal_strlit("SUBSCRIBE");
    reveal_strlit("UNSUBSCRIBE");
    reveal_strlit("DISCONNECT");
    assert("SEND"@.len() == 4);
    assert("SUBSCRIBE"@.len() == 9);
    assert("UNSUBSCRIBE"@.len() == 11);
    assert("DISCONNECT"@.len() == 10);
}

/// The value a header list assigns to `name`: the last pair named `name`
/// wins, matching what repeated mapping inserts would leave.
pub fn header_lookup(headers: &Vec<(String, String)>, name: &str) -> (r: Option<String>)
    ensures
        match r {
            Some(v) => pairs_map(pairs_view(headers@)).contains_key(name@) && pairs_map(
                pairs_view(headers@),
            )[name@] == v@,
            None => !pairs_map(pairs_view(headers@)).contains_key(name@),
        },
{
    let mut i: usize = headers.len();
    while i > 0
        invariant
            i <= headers@.len(),
            forall|k: int| i <= k < headers@.len() ==> #[trigger] headers@[k].0@ != name@,
        decreases i,
    {
        i = i - 1;
        if string_eq_str(&headers[i].0, name) {
            proof {
                assert(forall|k: int|
                    i < k < pairs_view(headers@).len() ==> pairs_view(headers@)[k].0 != name@);
                lemma_pairs_map_last_match(pairs_view(headers@), name@, i as int);
            }
            return Some(headers[i].1.clone());
        }
    }
    proof {
        assert(forall|k: int|
            0 <= k < pairs_view(headers@).len() ==> pairs_view(headers@)[k].0 != name@);
        lemma_pairs_map_absent(pairs_view(headers@), name@);
    }
    None
}

impl StompClientFrame {
    /// Decodes the bytes of one client frame, exactly as `spec_decode`
    /// describes: the four commands are interpreted per their required
    /// headers, and every malformed input yields its specific error.
    pub fn new(input: &[u8]) -> (r: Result<StompClientFrame, ParseError>)
        ensures
            match r {
                Ok(f) => spec_decode(input@) == Ok::<ClientFrameView, ParseError>(f@),
                Err(e) => spec_decode(input@) == Err::<ClientFrameView, ParseError>(e),
            },
    {
        match RawFrame::parse(input) {
            Err(e) => Err(e),
            Ok(frame) => {
                if string_eq_str(&frame.command, "SEND") {
                    Self::crate_send_frame(frame.headers, frame.body)
                } else if string_eq_str(&frame.command, "SUBSCRIBE") {
                    Self::create_subscribe_frame(frame.headers)
                } else if string_eq_str(&frame.command, "UNSUBSCRIBE") {
                    Self::create_unsubscribe_frame(frame.headers)
                } else if string_eq_str(&frame.command, "DISCONNECT") {
                    Ok(StompClientFrame::DISCONNECT)
                } else {
                    Err(ParseError::UnknownCommand)
                }
            },
        }
    }

    /// Interprets a SEND frame: the `action` header picks the variant and
    /// the body carries the text for CREATE and UPDATE.
    pub fn crate_send_frame(headers: Vec<(String, String)>, payload: Option<Vec<u8>>) -> (r:
        Result<StompClientFrame, ParseError>)
        ensures
            ({
                let h = pairs_map(pairs_view(headers@));
                let b = match payload {
                    Some(v) => Some(v@),
                    None => None,
                };
                match r {
                    Ok(f) => spec_interpret_send(h, b) == Ok::<ClientFrameView, ParseError>(f@),
                    Err(e) => spec_interpret_send(h, b) == Err::<ClientFrameView, ParseError>(e),
                }
            }),
    {
        match header_lookup(&headers, "action") {
            None => Err(ParseError::MissingAction),
            Some(action) => {
                let bytes = match payload {
                    Some(b) => b,
                    None => Vec::new(),
                };
                if string_eq_str(&action, "CREATE") {
                    match utf8_to_string(bytes) {
                        None => Err(ParseError::InvalidBody),
                        Some(text) => match Self::create_send_create_frame(headers, text) {
                            Ok(f) => Ok(StompClientFrame::SEND(f)),
                            Err(e) => Err(e),
                        },
                    }
                } else if string_eq_str(&action, "UPDATE") {
                    match utf8_to_string(bytes) {
                        None => Err(ParseError::InvalidBody),
                        Some(text) => match Self::create_send_update_frame(headers, text) {
                            Ok(f) => Ok(StompClientFrame::SEND(f)),
                            Err(e) => Err(e),
                        },
                    }
                } else if string_eq_str(&action, "DELETE") {
                    match Self::create_send_delete_frame(headers) {
                        Ok(f) => Ok(StompClientFrame::SEND(f)),
                        Err(e) => Err(e),
                    }
                } else {
                    Err(ParseError::UnknownAction)
                }
            },
        }
    }

    /// Builds the CREATE variant: the `destination` header is required.
    pub fn create_send_create_frame(headers: Vec<(String, String)>, text: String) -> (r: Result<
        SendClientFrame,
        ParseError,
    >)
        ensures
            ({
                let h = pairs_map(pairs_view(headers@));
                match r {
                    Ok(f) => h.contains_key("destination"@) && f@ == (SendFrameView::CREATE {
                        destination: h["destination"@],
                        text: text@,
                    }),
                    Err(e) => e == ParseError::MissingDestination && !h.contains_key(
                        "destination"@,
                    ),
                }
            }),
    {
        match header_lookup(&headers, "destination") {
            Some(destination) => Ok(SendClientFrame::CREATE { destination, text }),
            None => Err(ParseError::MissingDestination),
        }
    }

    /// Builds the UPDATE variant: the `id` header is required.
    pub fn create_send_update_frame(headers: Vec<(String, String)>, text: String) -> (r: Result<
        SendClientFrame,
        ParseError,
    >)
        ensures
            ({
                let h = pairs_map(pairs_view(headers@));
                match r {
                    Ok(f) => h.contains_key("id"@) && f@ == (SendFrameView::UPDATE {
                        id: h["id"@],
                        text: text@,
                    }),
                    Err(e) => e == ParseError::MissingId && !h.contains_key("id"@),
                }
            }),
    {
        match header_lookup(&headers, "id") {
            Some(id) => Ok(SendClientFrame::UPDATE { id, text }),
            None => Err(ParseError::MissingId),
        }
    }

    /// Builds the DELETE variant: the `id` header is required, the body is
    /// ignored.
    pub fn create_send_delete_frame(headers: Vec<(String, String)>) -> (r: Result<
        SendClientFrame,
        ParseError,
    >)
        ensures
            ({
                let h = pairs_map(pairs_view(headers@));
                match r {
                    Ok(f) => h.contains_key("id"@) && f@ == (SendFrameView::DELETE {
                        id: h["id"@],
                    }),
                    Err(e) => e == ParseError::MissingId && !h.contains_key("id"@),
                }
            }),
    {
        match header_lookup(&headers, "id") {
            Some(id) => Ok(SendClientFrame::DELETE { id }),
            None => Err(ParseError::MissingId),
        }
    }

    /// Interprets a SUBSCRIBE frame: `destination` and `id` must both be
    /// present and non-empty.
    pub fn create_subscribe_frame(headers: Vec<(String, String)>) -> (r: Result<
        StompClientFrame,
        ParseError,
    >)
        ensures
            ({
                let h = pairs_map(pairs_view(headers@));
                let w = WireView { command: "SUBSCRIBE"@, headers: h, body: None };
                match r {
                    Ok(f) => spec_interpret(w) == Ok::<ClientFrameView, ParseError>(f@),
                    Err(e) => spec_interpret(w) == Err::<ClientFrameView, ParseError>(e),
                }
            }),
    {
        proof {
            lemma_commands_distinct();
        }
        match header_lookup(&headers, "destination") {
            None => Err(ParseError::MissingDestination),
            Some(destination) => {
                if destination.as_str().is_empty() {
                    return Err(ParseError::MissingDestination);
                }
                match header_lookup(&headers, "id") {
                    None => Err(ParseError::MissingId),
                    Some(id) => {
                        if id.as_str().is_empty() {
                            return Err(ParseError::MissingId);
                        }
                        Ok(StompClientFrame::SUBSCRIBE { destination, id })
                    },
                }
            },
        }
    }

    /// Interprets an UNSUBSCRIBE frame: the `id` header names the
    /// subscription to drop.
    pub fn create_unsubscribe_frame(headers: Vec<(String, String)>) -> (r: Result<
        StompClientFrame,
        ParseError,
    >)
        ensures
            ({
                let h = pairs_map(pairs_view(headers@));
                let w = WireView { command: "UNSUBSCRIBE"@, headers: h, body: None };
                match r {
                    Ok(f) => spec_interpret(w) == Ok::<ClientFrameView, ParseError>(f@),
                    Err(e) => spec_interpret(w) == Err::<ClientFrameView, ParseError>(e),
                }
            }),
    {
        proof {
            lemma_commands_distinct();
        }
        match header_lookup(&headers, "id") {
            None => Err(ParseError::MissingId),
            Some(id) => Ok(StompClientFrame::UNSUBSCRIBE(id)),
        }
    }
}

/// One serialized header line: name, colon, value, line feed.
pub open spec fn spec_encode_header(p: (Seq<char>, Seq<char>)) -> Seq<char> {
    p.0 + ":"@ + p.1 + "\n"@
}

/// The serialized header section, lines in list order.
pub open spec fn spec_encode_headers(hs: Seq<(Seq<char>, Seq<char>)>) -> Seq<char>
    decreases hs.len(),
{
    if hs.len() == 0 {
        Seq::empty()
    } else {
        spec_encode_headers(hs.drop_last()) + spec_encode_header(hs.last())
    }
}

/// A serialized server frame: command line, header lines, a blank line,
/// then the body, all with `\n` endings and no trailing NUL.
pub open spec fn spec_encode_frame(
    command: Seq<char>,
    hs: Seq<(Seq<char>, Seq<char>)>,
    text: Seq<char>,
) -> Seq<char> {
    command + "\n"@ + spec_encode_headers(hs) + "\n"@ + text
}

impl StompFrame {
    /// Serializes the frame for the wire, exactly as `spec_encode_frame`
    /// describes.
    #[verifier::loop_isolation(false)]
    pub fn encode(&self) -> (r: String)
        ensures
            r@ == spec_encode_frame(self@.command, self@.headers, self@.text),
    {
        let mut out = String::new();
        out.append(self.command.as_str());
        out.append("\n");
        let ghost pv = pairs_view(self.headers@);
        let n: usize = self.headers.len();
        let mut i: usize = 0;
        proof {
            assert(pv.take(0) =~= Seq::<(Seq<char>, Seq<char>)>::empty());
            assert(out@ =~= self.command@ + "\n"@ + spec_encode_headers(pv.take(0)));
        }
        while i < n
            invariant
                i <= n,
                out@ == self.command@ + "\n"@ + spec_encode_headers(pv.take(i as int)),
            decreases n - i,
        {
            out.append(self.headers[i].0.as_str());
            out.append(":");
            out.append(self.headers[i].1.as_str());
            out.append("\n");
            proof {
                assert(pv.take(i + 1).drop_last() =~= pv.take(i as int));
                assert(pv.take(i + 1).last() == pv[i as int]);
                assert(out@ =~= self.command@ + "\n"@ + spec_encode_headers(pv.take(i + 1)));
            }
            i = i + 1;
        }
        out.append("\n");
        out.append(self.text.as_str());
        proof {
            assert(pv.take(n as int) =~= pv);
            assert(out@ =~= spec_encode_frame(self@.command, self@.headers, self@.text));
        }
        out
    }
}

impl Clone for StompFrame {
    /// A clone denotes the same frame: same command, headers and text.
    fn clone(&self) -> (r: Self)
        ensures
            r@ == self@,
    {
        let mut headers: Vec<(String, String)> = Vec::new();
        let n: usize = self.headers.len();
        let mut i: usize = 0;
        while i < n
            invariant
                i <= n,
                n == self.headers@.len(),
                headers@.len() == i,
                forall|k: int| 0 <= k < i ==> headers@[k] == self.headers@[k],
            decreases n - i,
        {
            headers.push((self.headers[i].0.clone(), self.headers[i].1.clone()));
            i = i + 1;
        }
        proof {
            assert(headers@ =~= self.headers@);
        }
        StompFrame { command: self.command.clone(), headers, text: self.text.clone() }
    }
}

impl vstd::std_specs::cmp::PartialEqSpecImpl for SendClientFrame {
    open spec fn obeys_eq_spec() -> bool {
        true
    }

    open spec fn eq_spec(&self, other: &SendClientFrame) -> bool {
        self@ == other@
    }
}

impl PartialEq for SendClientFrame {
    fn eq(&self, other: &SendClientFrame) -> (r: bool) {
        match (self, other) {
            (
                SendClientFrame::CREATE { destination: d1, text: t1 },
                SendClientFrame::CREATE { destination: d2, text: t2 },
            ) => d1.eq(d2) && t1.eq(t2),
            (
                SendClientFrame::UPDATE { id: i1, text: t1 },
                SendClientFrame::UPDATE { id: i2, text: t2 },
            ) => i1.eq(i2) && t1.eq(t2),
            (SendClientFrame::DELETE { id: i1 }, SendClientFrame::DELETE { id: i2 }) => i1.eq(i2),
            _ => false,
        }
    }
}

impl vstd::std_specs::cmp::PartialEqSpecImpl for StompClientFrame {
    open spec fn obeys_eq_spec() -> bool {
        true
    }

    open spec fn eq_spec(&self, other: &StompClientFrame) -> bool {
        self@ == other@
    }
}

impl PartialEq for StompClientFrame {
    fn eq(&self, other: &StompClientFrame) -> (r: bool) {
        match (self, other) {
            (StompClientFrame::SEND(f1), StompClientFrame::SEND(f2)) => f1.eq(f2),
            (
                StompClientFrame::SUBSCRIBE { destination: d1, id: i1 },
                StompClientFrame::SUBSCRIBE { destination: d2, id: i2 },
            ) => d1.eq(d2) && i1.eq(i2),
            (StompClientFrame::UNSUBSCRIBE(i1), StompClientFrame::UNSUBSCRIBE(i2)) => i1.eq(i2),
            (StompClientFrame::DISCONNECT, StompClientFrame::DISCONNECT) => true,
            _ => false,
        }
    }
}

/// No occurrence of the character `c` in `s`.
pub open spec fn char_free(s: Seq<char>, c: char) -> bool {
    forall|i: int| 0 <= i < s.len() ==> s[i] != c
}

/// Header names and values that survive the wire: no line ends, no colon.
pub open spec fn header_text_ok(s: Seq<char>) -> bool {
    char_free(s, '\n') && char_free(s, '\r') && char_free(s, ':')
}

/// A server frame whose serialization parses back losslessly: no line ends
/// in the command, no line ends or colons in header names and values, and
/// a body that does not end in NUL.
pub open spec fn frame_encodable(f: FrameView) -> bool {
    &&& char_free(f.command, '\n')
    &&& char_free(f.command, '\r')
    &&& forall|i: int|
        0 <= i < f.headers.len() ==> header_text_ok((#[trigger] f.headers[i]).0) && header_text_ok(
            f.headers[i].1,
        )
    &&& (f.text.len() == 0 || f.text.last() != '\0')
}

/// Bytes of characters free of the ASCII character `c` avoid its code.
proof fn lemma_char_free_bytes(s: Seq<char>, c: char, b: u8)
    requires
        char_free(s, c),
        c as u32 == b as u32,
        b < 0x80,
    ensures
        forall|k: int| 0 <= k < encode_utf8(s).len() ==> #[trigger] encode_utf8(s)[k] != b,
{
    assert forall|i: int| 0 <= i < s.len() implies #[trigger] (s[i] as u32) != b as u32 by {
        crate::text::lemma_char_code_injective(s[i], c);
    }
    crate::text::lemma_encode_utf8_avoids(s, b);
}

/// The one-character strings used by the codec encode to their ASCII codes.
proof fn lemma_encode_lf()
    ensures
        encode_utf8("\n"@) == seq![LF],
{
    reveal_strlit("\n");
    assert("\n"@ =~= seq!['\n']);
    crate::text::lemma_encode_utf8_singleton('\n');
    let s: u32 = '\n' as u32;
    assert(s == 10);
    assert(((s & 0x7F) as u8) == 10) by (bit_vector)
        requires
            s == 10,
    ;
    assert(vstd::utf8::encode_scalar(s) =~= seq![LF]);
}

proof fn lemma_encode_colon()
    ensures
        encode_utf8(":"@) == seq![COLON],
{
    reveal_strlit(":");
    assert(":"@ =~= seq![':']);
    crate::text::lemma_encode_utf8_singleton(':');
    let s: u32 = ':' as u32;
    assert(s == 58);
    assert(((s & 0x7F) as u8) == 58) by (bit_vector)
        requires
            s == 58,
    ;
    assert(vstd::utf8::encode_scalar(s) =~= seq![COLON]);
}

/// Front unfolding of the header serialization.
proof fn lemma_encode_headers_first(hs: Seq<(Seq<char>, Seq<char>)>)
    requires
        hs.len() > 0,
    ensures
        spec_encode_headers(hs) == spec_encode_header(hs[0]) + spec_encode_headers(
            hs.drop_first(),
        ),
    decreases hs.len(),
{
    if hs.len() == 1 {
        assert(hs.drop_last() =~= Seq::<(Seq<char>, Seq<char>)>::empty());
        assert(hs.drop_first() =~= Seq::<(Seq<char>, Seq<char>)>::empty());
        assert(hs.last() == hs[0]);
        assert(spec_encode_headers(hs) =~= spec_encode_header(hs[0]) + spec_encode_headers(
            hs.drop_first(),
        ));
    } else {
        lemma_encode_headers_first(hs.drop_last());
        assert(hs.drop_last()[0] == hs[0]);
        assert(hs.drop_last().drop_first() =~= hs.drop_first().drop_last());
        assert(hs.drop_first().last() == hs.last());
        assert(spec_encode_headers(hs) =~= spec_encode_header(hs[0]) + spec_encode_headers(
            hs.drop_first(),
        ));
    }
}

/// The serialized line of one header pair, as bytes.
pub open spec fn header_line_bytes(p: (Seq<char>, Seq<char>)) -> Seq<u8> {
    encode_utf8(p.0) + seq![COLON] + encode_utf8(p.1)
}

/// Sections of a serialized header block followed by the blank line and a
/// tail: one line per header pair, the tail as body.
proof fn lemma_split_sections_encoded_headers(hs: Seq<(Seq<char>, Seq<char>)>, tail: Seq<u8>)
    requires
        forall|i: int|
            0 <= i < hs.len() ==> header_text_ok((#[trigger] hs[i]).0) && header_text_ok(hs[i].1),
    ensures
        ({
            let s = split_sections(encode_utf8(spec_encode_headers(hs)) + seq![LF] + tail);
            &&& s.lines.len() == hs.len()
            &&& forall|i: int|
                0 <= i < hs.len() ==> s.lines[i] == header_line_bytes(#[trigger] hs[i])
            &&& s.body == Some(strip_nul(tail))
        }),
    decreases hs.len(),
{
    let bytes = encode_utf8(spec_encode_headers(hs)) + seq![LF] + tail;
    if hs.len() == 0 {
        assert(encode_utf8(spec_encode_headers(hs)) =~= Seq::<u8>::empty());
        assert(bytes =~= seq![LF] + tail);
        assert(bytes[0] == LF);
        lemma_find_byte_present(bytes, LF, 0);
        assert(strip_cr(bytes.take(0)) =~= Seq::<u8>::empty());
        assert(bytes.skip(1) =~= tail);
    } else {
        let p = hs[0];
        let rest_h = hs.drop_first();
        lemma_encode_headers_first(hs);
        crate::text::lemma_encode_utf8_concat(p.0 + ":"@ + p.1, "\n"@);
        crate::text::lemma_encode_utf8_concat(p.0 + ":"@, p.1);
        crate::text::lemma_encode_utf8_concat(p.0, ":"@);
        crate::text::lemma_encode_utf8_concat(spec_encode_header(p), spec_encode_headers(rest_h));
        lemma_encode_lf();
        lemma_encode_colon();
        let line = header_line_bytes(p);
        let rest_bytes = encode_utf8(spec_encode_headers(rest_h)) + seq![LF] + tail;
        assert(bytes =~= line + seq![LF] + rest_bytes);
        lemma_char_free_bytes(p.0, '\n', LF);
        lemma_char_free_bytes(p.1, '\n', LF);
        lemma_char_free_bytes(p.0, '\r', CR);
        lemma_char_free_bytes(p.1, '\r', CR);
        assert(forall|k: int| 0 <= k < line.len() ==> line[k] != LF);
        assert(bytes[line.len() as int] == LF);
        assert(forall|k: int| 0 <= k < line.len() ==> bytes[k] == line[k]);
        lemma_find_byte_present(bytes, LF, line.len() as int);
        assert(bytes.take(line.len() as int) =~= line);
        assert(line.len() > 0);
        assert(line.last() != CR) by {
            if encode_utf8(p.1).len() == 0 {
                assert(line.last() == COLON);
            } else {
                assert(line.last() == encode_utf8(p.1)[encode_utf8(p.1).len() - 1]);
            }
        }
        assert(strip_cr(line) == line);
        assert(bytes.skip(line.len() as int + 1) =~= rest_bytes);
        lemma_split_sections_encoded_headers(rest_h, tail);
        assert(split_sections(bytes).lines =~= seq![line] + split_sections(rest_bytes).lines);
        assert forall|i: int|
            0 <= i < hs.len() implies split_sections(bytes).lines[i] == header_line_bytes(
            #[trigger] hs[i],
        ) by {
            if i > 0 {
                assert(split_sections(bytes).lines[i] == split_sections(rest_bytes).lines[i - 1]);
                assert(rest_h[i - 1] == hs[i]);
            }
        }
    }
}

/// Law: a serialized server frame parses back to the same command, the
/// same header mapping, and a body that decodes to the same text. This
/// holds for every frame whose command has no line ends, whose header
/// names and values have no line ends and no colons, and whose text does
/// not end in NUL.
pub proof fn lemma_encode_parse_round_trip(f: FrameView)
    requires
        frame_encodable(f),
    ensures
        ({
            let bytes = encode_utf8(spec_encode_frame(f.command, f.headers, f.text));
            &&& spec_parse(bytes) == Ok::<WireView, ParseError>(
                WireView {
                    command: f.command,
                    headers: pairs_map(f.headers),
                    body: Some(encode_utf8(f.text)),
                },
            )
            &&& decode_utf8(encode_utf8(f.text)) == f.text
        }),
{
    let full = spec_encode_frame(f.command, f.headers, f.text);
    let h = spec_encode_headers(f.headers);
    crate::text::lemma_encode_utf8_concat(f.command + "\n"@ + h + "\n"@, f.text);
    crate::text::lemma_encode_utf8_concat(f.command + "\n"@ + h, "\n"@);
    crate::text::lemma_encode_utf8_concat(f.command + "\n"@, h);
    crate::text::lemma_encode_utf8_concat(f.command, "\n"@);
    lemma_encode_lf();
    let cb = encode_utf8(f.command);
    let hb = encode_utf8(h);
    let tb = encode_utf8(f.text);
    let bytes = encode_utf8(full);
    assert(bytes =~= cb + seq![LF] + (hb + seq![LF] + tb));
    lemma_char_free_bytes(f.command, '\n', LF);
    lemma_char_free_bytes(f.command, '\r', CR);
    assert(forall|k: int| 0 <= k < cb.len() ==> bytes[k] == cb[k]);
    assert(bytes[cb.len() as int] == LF);
    lemma_find_byte_present(bytes, LF, cb.len() as int);
    assert(bytes.take(cb.len() as int) =~= cb);
    assert(strip_cr(cb) == cb) by {
        if cb.len() > 0 {
            assert(cb.last() != CR);
        }
    }
    assert(bytes.skip(cb.len() as int + 1) =~= hb + seq![LF] + tb);
    lemma_split_sections_encoded_headers(f.headers, tb);
    let s = split_sections(hb + seq![LF] + tb);
    assert(strip_nul(tb) == tb) by {
        if f.text.len() > 0 {
            crate::text::lemma_char_code_injective(f.text.last(), '\0');
            crate::text::lemma_encode_utf8_last_not_nul(f.text);
        } else {
            assert(tb =~= Seq::<u8>::empty());
        }
    }
    assert forall|i: int| 0 <= i < s.lines.len() implies header_line_ok(#[trigger] s.lines[i]) by {
        let p = f.headers[i];
        let line = header_line_bytes(p);
        lemma_header_line_bytes_ok(p);
    }
    assert(header_lines_ok(s.lines));
    assert forall|i: int|
        0 <= i < s.lines.len() implies decoded_pairs(s.lines)[i] == #[trigger] f.headers[i] by {
        lemma_header_line_bytes_split(f.headers[i]);
    }
    assert(decoded_pairs(s.lines) =~= f.headers);
    assert(spec_parse(bytes) == Ok::<WireView, ParseError>(
        WireView { command: f.command, headers: pairs_map(f.headers), body: Some(tb) },
    ));
}

/// A serialized header line is well-formed on the wire.
proof fn lemma_header_line_bytes_ok(p: (Seq<char>, Seq<char>))
    requires
        header_text_ok(p.0),
        header_text_ok(p.1),
    ensures
        header_line_ok(header_line_bytes(p)),
{
    lemma_header_line_bytes_split(p);
}

/// A serialized header line splits back into its encoded name and value.
proof fn lemma_header_line_bytes_split(p: (Seq<char>, Seq<char>))
    requires
        header_text_ok(p.0),
        header_text_ok(p.1),
    ensures
        header_line_ok(header_line_bytes(p)),
        split_header_line(header_line_bytes(p)) == Some((encode_utf8(p.0), encode_utf8(p.1))),
        decode_utf8(encode_utf8(p.0)) == p.0,
        decode_utf8(encode_utf8(p.1)) == p.1,
{
    let nb = encode_utf8(p.0);
    let vb = encode_utf8(p.1);
    let line = header_line_bytes(p);
    lemma_char_free_bytes(p.0, ':', COLON);
    lemma_char_free_bytes(p.1, ':', COLON);
    assert(line[nb.len() as int] == COLON);
    assert(forall|k: int| 0 <= k < nb.len() ==> line[k] == nb[k] && line[k] != COLON);
    assert(forall|k: int|
        nb.len() < k < line.len() ==> line[k] == vb[k - nb.len() - 1] && line[k] != COLON);
    lemma_count_byte_one(line, COLON, nb.len() as int);
    lemma_find_byte_present(line, COLON, nb.len() as int);
    assert(line.take(nb.len() as int) =~= nb);
    assert(line.skip(nb.len() as int + 1) =~= vb);
}

/// The serialized bytes of a logical frame under one line-ending
/// convention: command line, header lines, a blank line, then the body.
pub open spec fn eol_bytes(crlf: bool) -> Seq<u8> {
    if crlf {
        seq![CR, LF]
    } else {
        seq![LF]
    }
}

pub open spec fn render_header_lines(lines: Seq<Seq<u8>>, crlf: bool) -> Seq<u8>
    decreases lines.len(),
{
    if lines.len() == 0 {
        Seq::empty()
    } else {
        lines[0] + eol_bytes(crlf) + render_header_lines(lines.drop_first(), crlf)
    }
}

pub open spec fn render_frame(
    command: Seq<u8>,
    lines: Seq<Seq<u8>>,
    body: Seq<u8>,
    crlf: bool,
) -> Seq<u8> {
    command + eol_bytes(crlf) + render_header_lines(lines, crlf) + eol_bytes(crlf) + body
}

/// A line that can be rendered under either convention: no line-end bytes.
pub open spec fn byte_line_ok(s: Seq<u8>) -> bool {
    forall|k: int| 0 <= k < s.len() ==> s[k] != LF && s[k] != CR
}

/// Rendered header lines split back into those lines with the tail as
/// body, under either line-ending convention.
proof fn lemma_render_sections(lines: Seq<Seq<u8>>, body: Seq<u8>, crlf: bool)
    requires
        forall|i: int| 0 <= i < lines.len() ==> byte_line_ok(#[trigger] lines[i]) && lines[i].len() > 0,
    ensures
        split_sections(render_header_lines(lines, crlf) + eol_bytes(crlf) + body) == (Sections {
            lines,
            body: Some(strip_nul(body)),
        }),
    decreases lines.len(),
{
    let bytes = render_header_lines(lines, crlf) + eol_bytes(crlf) + body;
    if lines.len() == 0 {
        assert(render_header_lines(lines, crlf) =~= Seq::<u8>::empty());
        if crlf {
            assert(bytes =~= seq![CR, LF] + body);
            assert(bytes[0] == CR && bytes[1] == LF);
            lemma_find_byte_present(bytes, LF, 1);
            assert(bytes.take(1) =~= seq![CR]);
            assert(strip_cr(seq![CR]) =~= Seq::<u8>::empty());
            assert(bytes.skip(2) =~= body);
            assert(split_sections(bytes).lines =~= lines);
        } else {
            assert(bytes =~= seq![LF] + body);
            assert(bytes[0] == LF);
            lemma_find_byte_present(bytes, LF, 0);
            assert(strip_cr(bytes.take(0)) =~= Seq::<u8>::empty());
            assert(bytes.skip(1) =~= body);
            assert(split_sections(bytes).lines =~= lines);
        }
    } else {
        let l0 = lines[0];
        let rest_bytes = render_header_lines(lines.drop_first(), crlf) + eol_bytes(crlf) + body;
        assert(bytes =~= l0 + eol_bytes(crlf) + rest_bytes);
        let n = l0.len() as int;
        if crlf {
            assert(bytes[n] == CR && bytes[n + 1] == LF);
            assert(forall|k: int| 0 <= k < n ==> bytes[k] == l0[k]);
            lemma_find_byte_present(bytes, LF, n + 1);
            assert(bytes.take(n + 1) =~= l0 + seq![CR]);
            assert(strip_cr(l0 + seq![CR]) =~= l0);
            assert(bytes.skip(n + 2) =~= rest_bytes);
        } else {
            assert(bytes[n] == LF);
            assert(forall|k: int| 0 <= k < n ==> bytes[k] == l0[k]);
            lemma_find_byte_present(bytes, LF, n);
            assert(bytes.take(n) =~= l0);
            assert(strip_cr(l0) == l0);
            assert(bytes.skip(n + 1) =~= rest_bytes);
        }
        lemma_render_sections(lines.drop_first(), body, crlf);
        assert(split_sections(bytes).lines =~= seq![l0] + lines.drop_first());
        assert(seq![l0] + lines.drop_first() =~= lines);
    }
}

/// Law: a logical frame rendered with `\r\n` line endings parses and
/// decodes exactly as the same frame rendered with `\n` endings.
pub proof fn lemma_crlf_equivalent(command: Seq<u8>, lines: Seq<Seq<u8>>, body: Seq<u8>)
    requires
        byte_line_ok(command),
        forall|i: int| 0 <= i < lines.len() ==> byte_line_ok(#[trigger] lines[i]) && lines[i].len() > 0,
    ensures
        spec_parse(render_frame(command, lines, body, true)) == spec_parse(
            render_frame(command, lines, body, false),
        ),
        spec_decode(render_frame(command, lines, body, true)) == spec_decode(
            render_frame(command, lines, body, false),
        ),
{
    let n = command.len() as int;
    let rest_t = render_header_lines(lines, true) + eol_bytes(true) + body;
    let rest_f = render_header_lines(lines, false) + eol_bytes(false) + body;
    let bt = render_frame(command, lines, body, true);
    let bf = render_frame(command, lines, body, false);
    assert(bt =~= command + seq![CR, LF] + rest_t);
    assert(bf =~= command + seq![LF] + rest_f);
    assert(forall|k: int| 0 <= k < n ==> bt[k] == command[k]);
    assert(forall|k: int| 0 <= k < n ==> bf[k] == command[k]);
    assert(bt[n] == CR && bt[n + 1] == LF);
    assert(bf[n] == LF);
    lemma_find_byte_present(bt, LF, n + 1);
    lemma_find_byte_present(bf, LF, n);
    assert(bt.take(n + 1) =~= command + seq![CR]);
    assert(strip_cr(command + seq![CR]) =~= command);
    assert(bf.take(n) =~= command);
    assert(strip_cr(command) == command) by {
        if command.len() > 0 {
            assert(command.last() != CR);
        }
    }
    assert(bt.skip(n + 2) =~= rest_t);
    assert(bf.skip(n + 1) =~= rest_f);
    lemma_render_sections(lines, body, true);
    lemma_render_sections(lines, body, false);
    assert(strip_cr(bt.take(n + 1)) == strip_cr(bf.take(n)));
    assert(split_sections(bt.skip(n + 2)) == split_sections(bf.skip(n + 1)));
}

} // verus!
