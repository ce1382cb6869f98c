//! The frame codec: from buffered bytes to messages, and from commands to
//! bytes.
//!
//! A frame is a header block, a blank line, and then as many payload bytes
//! as the header `Content-Length` announces. The header block is a list of
//! `Key: Value` lines.

use vstd::prelude::*;
use vstd::slice::slice_subrange;
use vstd::string::*;
use vstd::utf8::encode_utf8;
use vstd::utf8::valid_utf8;
use std::collections::HashMap;
use bytes::Buf;
use bytes::BytesMut;
use crate::error::EslError;
use crate::error::EslErrorView;
use crate::esl::EslEventType;
use crate::event::EslMsg;
use crate::event::EslMsgView;
use crate::event::Event;
use crate::event::EventView;
use crate::event::Headers;
use crate::event::pairs_map;
use crate::event::CONTENT_LENGTH;
use crate::event::CONTENT_TYPE;
use crate::event::RAW_BODY;
use crate::text::find_byte;
use crate::text::index_of;
use crate::text::length_value;
use crate::text::lemma_text_keeps_bytes;
use crate::text::parse_length;
use crate::text::str_eq;
use crate::text::bytes_text;
use crate::text::text_of;
use crate::text::trim;
use crate::text::trimmed_text;

verus! {

/// The length of the header terminator that starts at `i`: 2 for two line
/// feeds, 4 for two pairs of carriage return and line feed, 0 when neither
/// starts there.
pub open spec fn terminator_at(s: Seq<u8>, i: int) -> nat {
    if 0 <= i && i + 2 <= s.len() && s[i] == 0x0a && s[i + 1] == 0x0a {
        2
    } else if 0 <= i && i + 4 <= s.len() && s[i] == 0x0d && s[i + 1] == 0x0a && s[i + 2] == 0x0d
        && s[i + 3] == 0x0a {
        4
    } else {
        0
    }
}

/// Whether `s` holds a header terminator.
pub open spec fn has_terminator(s: Seq<u8>) -> bool {
    exists|i: int| terminator_at(s, i) > 0
}

/// Whether the first header terminator of `s` starts at `i`.
pub open spec fn is_header_end(s: Seq<u8>, i: int) -> bool {
    terminator_at(s, i) > 0 && forall|j: int| 0 <= j < i ==> terminator_at(s, j) == 0
}

/// Where the first header terminator of `s` starts. Meaningful when `s`
/// holds one.
pub open spec fn header_end(s: Seq<u8>) -> int {
    choose|i: int| is_header_end(s, i)
}

/// The first header terminator is where `is_header_end` says.
pub proof fn lemma_header_end(s: Seq<u8>, i: int)
    requires
        is_header_end(s, i),
    ensures
        has_terminator(s),
        header_end(s) == i,
{
    let k = header_end(s);
    assert(is_header_end(s, k));
    if k < i {
        assert(terminator_at(s, k) == 0);
    }
    if i < k {
        assert(terminator_at(s, i) == 0);
    }
}

/// Before or at any header terminator there is a first one.
proof fn lemma_first_terminator_before(s: Seq<u8>, at: int)
    requires
        terminator_at(s, at) > 0,
    ensures
        exists|i: int| is_header_end(s, i),
    decreases at,
{
    if forall|j: int| 0 <= j < at ==> terminator_at(s, j) == 0 {
        assert(is_header_end(s, at));
    } else {
        let earlier = choose|j: int| 0 <= j < at && terminator_at(s, j) > 0;
        lemma_first_terminator_before(s, earlier);
    }
}

/// A buffer that holds a header terminator holds a first one, and
/// `header_end` is its place.
pub proof fn lemma_first_terminator(s: Seq<u8>)
    requires
        has_terminator(s),
    ensures
        is_header_end(s, header_end(s)),
        0 <= header_end(s),
        header_end(s) + terminator_at(s, header_end(s)) <= s.len(),
{
    let at = choose|i: int| terminator_at(s, i) > 0;
    lemma_first_terminator_before(s, at);
}

/// Finds the end of the header block: the place of the first blank line,
/// written as two line feeds or as two pairs of carriage return and line
/// feed.
pub fn find_crlfcrlf(src: &[u8]) -> (found: Option<usize>)
    ensures
        match found {
            Some(i) => is_header_end(src@, i as int),
            None => !has_terminator(src@),
        },
{
    let n: usize = src.len();
    let mut i: usize = 0;
    while i < n
        invariant
            i <= n,
            n == src@.len(),
            forall|j: int| 0 <= j < i ==> terminator_at(src@, j) == 0,
        decreases n - i,
    {
        if src[i] == 0x0a {
            if n - i >= 2 && src[i + 1] == 0x0a {
                return Some(i);
            }
        } else if src[i] == 0x0d {
            if n - i >= 4 && src[i + 1] == 0x0a && src[i + 2] == 0x0d && src[i + 3] == 0x0a {
                return Some(i);
            }
        }
        i += 1;
    }
    proof {
        assert forall|j: int| terminator_at(src@, j) == 0 by {
            if 0 <= j < n {
            }
        }
    }
    None
}

/// What one line of a header block says.
pub enum Line {
    /// Nothing but white space.
    Blank,
    /// A key and a value: the text on either side of the first colon,
    /// without the white space around it.
    Entry(Seq<char>, Seq<char>),
    /// Something else than white space, and no colon.
    Malformed,
}

/// Reads one line of a header block.
pub open spec fn line_of(line: Seq<u8>) -> Line {
    let colon = index_of(line, 0x3a) as int;
    if colon < line.len() {
        Line::Entry(
            trim(text_of(line.subrange(0, colon))),
            trim(text_of(line.subrange(colon + 1, line.len() as int))),
        )
    } else if trim(text_of(line)).len() == 0 {
        Line::Blank
    } else {
        Line::Malformed
    }
}

/// Reads the lines of `block` one after the other into `known`. A later
/// line overrides an earlier one with the same key; a malformed line makes
/// the whole block unreadable.
pub open spec fn fold_block(block: Seq<u8>, known: Map<Seq<char>, Seq<char>>) -> Option<
    Map<Seq<char>, Seq<char>>,
>
    decreases block.len(),
{
    let end = index_of(block, 0x0a) as int;
    let next = match line_of(block.subrange(0, end)) {
        Line::Blank => Some(known),
        Line::Entry(key, value) => Some(known.insert(key, value)),
        Line::Malformed => None,
    };
    if next is Some && end < block.len() {
        fold_block(block.subrange(end + 1, block.len() as int), next->0)
    } else {
        next
    }
}

/// The header map that a header block writes, if every line of it is well
/// formed.
pub open spec fn header_block(block: Seq<u8>) -> Option<Map<Seq<char>, Seq<char>>> {
    fold_block(block, Map::empty())
}

/// Reads a header block: one `Key: Value` pair per line, split at the first
/// colon, white space around the text of key and value dropped, blank lines
/// skipped.
/// Fails with `MalformedPayload` when a line that is not blank has no colon.
pub fn parse_header_block(block: &[u8]) -> (parsed: Result<Headers, EslError>)
    ensures
        match parsed {
            Ok(headers) => header_block(block@) == Some(headers@),
            Err(error) => header_block(block@) is None && error@ is MalformedPayload,
        },
{
    let n: usize = block.len();
    let mut headers = Headers::new();
    let mut at: usize = 0;
    proof {
        assert(block@.subrange(0, n as int) =~= block@);
    }
    loop
        invariant_except_break
            at <= n,
            n == block@.len(),
            fold_block(block@.subrange(at as int, n as int), headers@) == header_block(block@),
        ensures
            header_block(block@) == Some(headers@),
        decreases n - at,
    {
        let ghost rest = block@.subrange(at as int, n as int);
        let end = find_byte(block, at, n, 0x0a);
        let colon = find_byte(block, at, end, 0x3a);
        proof {
            assert(rest.subrange(0, end - at) =~= block@.subrange(at as int, end as int));
            if end < n {
                assert(rest.subrange(end - at + 1, rest.len() as int) =~= block@.subrange(
                    end + 1,
                    n as int,
                ));
            }
        }
        let ghost line = block@.subrange(at as int, end as int);
        if colon < end {
            proof {
                assert(line.subrange(0, colon - at) =~= block@.subrange(at as int, colon as int));
                assert(line.subrange(colon - at + 1, line.len() as int) =~= block@.subrange(
                    colon + 1,
                    end as int,
                ));
            }
            let key = trimmed_text(slice_subrange(block, at, colon));
            let value = trimmed_text(slice_subrange(block, colon + 1, end));
            headers.insert(key, value);
        } else {
            let text = trimmed_text(slice_subrange(block, at, end));
            if !text.as_str().is_empty() {
                return Err(EslError::MalformedPayload);
            }
        }
        if end == n {
            break ;
        }
        at = end + 1;
    }
    Ok(headers)
}

/// `serde_json::Error`: why a text could not be read. Nothing is known of
/// what it holds.
#[verifier::external_type_specification]
#[verifier::external_body]
pub struct ExJsonError(serde_json::Error);

/// The fields of the JSON object that `text` writes, when `text` is one
/// JSON object whose values are all strings.
pub uninterp spec fn json_fields(text: Seq<u8>) -> Option<Map<Seq<char>, Seq<char>>>;

/// Reads a JSON object of strings with `serde_json::from_slice`. The pairs
/// come in no particular order and no key comes twice, so the map they stand
/// for depends on the text alone. Any other text is an error.
#[verifier::external_body]
fn json_string_fields(text: &[u8]) -> (parsed: Result<Vec<(String, String)>, serde_json::Error>)
    ensures
        match parsed {
            Ok(pairs) => json_fields(text@) == Some(pairs_map(pairs@)),
            Err(_) => json_fields(text@) is None,
        },
{
    match serde_json::from_slice::<HashMap<String, String>>(text) {
        Ok(fields) => Ok(fields.into_iter().collect()),
        Err(error) => Err(error),
    }
}

/// The header map that `src` writes in the given format.
pub open spec fn convert_spec(src: Seq<u8>, event_type: EslEventType) -> Option<
    Map<Seq<char>, Seq<char>>,
> {
    match event_type {
        EslEventType::PLAIN => header_block(src),
        EslEventType::JSON => json_fields(src),
        EslEventType::XML => Some(Map::empty()),
    }
}

/// Reads a header map from `src`: a header block for `PLAIN`, one JSON
/// object of strings for `JSON`. `XML` is not read and gives an empty map.
/// Fails with `MalformedPayload` when `src` does not follow the format.
pub fn convert2map(src: &[u8], event_type: EslEventType) -> (converted: Result<Headers, EslError>)
    ensures
        match converted {
            Ok(headers) => convert_spec(src@, event_type) == Some(headers@),
            Err(error) => convert_spec(src@, event_type) is None && error@ is MalformedPayload,
        },
{
    match event_type {
        EslEventType::PLAIN => parse_header_block(src),
        EslEventType::JSON => match json_string_fields(src) {
            Ok(pairs) => Ok(Headers::from_pairs(pairs)),
            Err(_) => Err(EslError::MalformedPayload),
        },
        EslEventType::XML => Ok(Headers::new()),
    }
}

/// Whether an outcome is the expected one: the same message, or the same
/// error.
pub open spec fn outcome_is(
    outcome: Result<Event, EslError>,
    expected: Result<EventView, EslErrorView>,
) -> bool {
    match outcome {
        Ok(event) => expected == Ok::<EventView, EslErrorView>(event@),
        Err(error) => expected == Err::<EventView, EslErrorView>(error@),
    }
}

/// A message without headers and with an empty body.
pub open spec fn empty_event() -> EventView {
    EventView { header: Map::empty(), body: Seq::empty() }
}

/// Where the header block of a `text/event-plain` payload ends: at its
/// first header terminator, or at the end of the payload when it holds none.
pub open spec fn nested_header_end(payload: Seq<u8>) -> int {
    if has_terminator(payload) {
        header_end(payload)
    } else {
        payload.len() as int
    }
}

/// Where the nested body of a `text/event-plain` payload starts: behind the
/// terminator of its header block.
pub open spec fn nested_body_at(payload: Seq<u8>) -> int {
    nested_header_end(payload) + terminator_at(payload, nested_header_end(payload))
}

/// The `n` bytes of a `text/event-plain` payload that make its nested body.
pub open spec fn nested_body(payload: Seq<u8>, n: nat) -> Seq<u8> {
    payload.subrange(nested_body_at(payload), nested_body_at(payload) + n)
}

/// The message that a `text/event-plain` payload writes: a header block,
/// and after a blank line as many body bytes as the block's own
/// `Content-Length` says. The body is also kept under the header `_body`.
pub open spec fn plain_event(payload: Seq<u8>) -> Result<EventView, EslErrorView> {
    match header_block(payload.subrange(0, nested_header_end(payload))) {
        None => Err(EslErrorView::MalformedPayload),
        Some(headers) => if !headers.contains_key(CONTENT_LENGTH@) {
            Ok(EventView { header: headers, body: Seq::empty() })
        } else {
            match length_value(headers[CONTENT_LENGTH@]) {
                None => Err(EslErrorView::MalformedLength),
                Some(n) => if n > payload.len() - nested_body_at(payload) {
                    Err(EslErrorView::MalformedLength)
                } else {
                    let body = text_of(nested_body(payload, n));
                    Ok(EventView { header: headers.insert(RAW_BODY@, body), body: body })
                },
            }
        },
    }
}

/// Reads a `text/event-plain` payload. Fails with `MalformedPayload` on a
/// malformed header line, and with `MalformedLength` when the inner
/// `Content-Length` is no number or exceeds the bytes that follow the blank
/// line.
pub fn parse_plain(raw_event_src: &[u8]) -> (parsed: Result<Event, EslError>)
    ensures
        outcome_is(parsed, plain_event(raw_event_src@)),
{
    let n: usize = raw_event_src.len();
    let found = find_crlfcrlf(raw_event_src);
    let end: usize = match found {
        Some(i) => i,
        None => n,
    };
    let body_at: usize = match found {
        Some(i) => if raw_event_src[i] == 0x0a {
            i + 2
        } else {
            i + 4
        },
        None => n,
    };
    proof {
        if found is Some {
            lemma_header_end(raw_event_src@, end as int);
        }
    }
    let mut headers = match parse_header_block(slice_subrange(raw_event_src, 0, end)) {
        Ok(headers) => headers,
        Err(error) => {
            return Err(error);
        },
    };
    let length = match headers.get(CONTENT_LENGTH) {
        None => {
            return Ok(Event { header: headers, body: String::new() });
        },
        Some(text) => parse_length(text),
    };
    match length {
        None => Err(EslError::MalformedLength),
        Some(len) => {
            if len > n - body_at {
                return Err(EslError::MalformedLength);
            }
            let body = bytes_text(slice_subrange(raw_event_src, body_at, body_at + len));
            headers.insert(RAW_BODY.to_owned(), body.clone());
            Ok(Event { header: headers, body: body })
        },
    }
}

/// Reads a `text/event-xml` payload. The format is not supported: the
/// message is empty whatever the payload holds.
pub fn parse_xml(_raw_event_src: &[u8]) -> (event: Event)
    ensures
        event@ == empty_event(),
{
    Event::new()
}

/// The message that a `text/event-json` payload writes: every field of the
/// JSON object is a header, and the body is empty.
pub open spec fn json_event(payload: Seq<u8>) -> Result<EventView, EslErrorView> {
    match json_fields(payload) {
        Some(fields) => Ok(EventView { header: fields, body: Seq::empty() }),
        None => Err(EslErrorView::MalformedPayload),
    }
}

/// Reads a `text/event-json` payload. Fails with `MalformedPayload` when
/// the payload is not one JSON object of strings.
pub fn parse_json(raw_event_src: &[u8]) -> (parsed: Result<Event, EslError>)
    ensures
        outcome_is(parsed, json_event(raw_event_src@)),
{
    match convert2map(raw_event_src, EslEventType::JSON) {
        Ok(headers) => Ok(Event { header: headers, body: String::new() }),
        Err(error) => Err(error),
    }
}

/// Content type of an event whose payload is a header block.
pub const EVENT_PLAIN: &'static str = "text/event-plain";

/// Content type of an event whose payload is a JSON object.
pub const EVENT_JSON: &'static str = "text/event-json";

/// Content type of an event whose payload is XML.
pub const EVENT_XML: &'static str = "text/event-xml";

/// Content type with which the peer refuses a connection.
pub const RUDE_REJECTION: &'static str = "text/rude-rejection";

/// Content type with which the peer announces that it disconnects.
pub const DISCONNECT_NOTICE: &'static str = "text/disconnect-notice";

/// How the payload of a frame is read, as its headers decide.
#[derive(Debug, Clone, Copy, PartialEq, Eq)]
pub enum PayloadKind {
    /// No `Content-Type`: the payload is the body as it stands.
    Verbatim,
    /// `text/event-plain`.
    Plain,
    /// `text/event-json`.
    Json,
    /// `text/event-xml`.
    Xml,
    /// `text/rude-rejection` or `text/disconnect-notice`.
    Denied,
    /// A content type that this client does not read.
    Unknown,
}

/// How the payload of a frame with these headers is read.
pub open spec fn payload_kind(headers: Map<Seq<char>, Seq<char>>) -> PayloadKind {
    if !headers.contains_key(CONTENT_TYPE@) {
        PayloadKind::Verbatim
    } else if headers[CONTENT_TYPE@] == EVENT_PLAIN@ {
        PayloadKind::Plain
    } else if headers[CONTENT_TYPE@] == EVENT_JSON@ {
        PayloadKind::Json
    } else if headers[CONTENT_TYPE@] == EVENT_XML@ {
        PayloadKind::Xml
    } else if headers[CONTENT_TYPE@] == RUDE_REJECTION@ || headers[CONTENT_TYPE@]
        == DISCONNECT_NOTICE@ {
        PayloadKind::Denied
    } else {
        PayloadKind::Unknown
    }
}

/// Decides from the headers of a frame how its payload is read.
pub fn classify(headers: &Headers) -> (kind: PayloadKind)
    ensures
        kind == payload_kind(headers@),
{
    match headers.get(CONTENT_TYPE) {
        None => PayloadKind::Verbatim,
        Some(content_type) => {
            if str_eq(content_type, EVENT_PLAIN) {
                PayloadKind::Plain
            } else if str_eq(content_type, EVENT_JSON) {
                PayloadKind::Json
            } else if str_eq(content_type, EVENT_XML) {
                PayloadKind::Xml
            } else if str_eq(content_type, RUDE_REJECTION) || str_eq(
                content_type,
                DISCONNECT_NOTICE,
            ) {
                PayloadKind::Denied
            } else {
                PayloadKind::Unknown
            }
        },
    }
}

/// The message that a frame with these headers and this payload carries,
/// or the error that it stands for.
pub open spec fn payload_event(headers: Map<Seq<char>, Seq<char>>, payload: Seq<u8>) -> Result<
    EventView,
    EslErrorView,
> {
    match payload_kind(headers) {
        PayloadKind::Verbatim => Ok(EventView { header: headers, body: text_of(payload) }),
        PayloadKind::Plain => plain_event(payload),
        PayloadKind::Json => json_event(payload),
        PayloadKind::Xml => Ok(empty_event()),
        PayloadKind::Denied => Err(EslErrorView::AccessDenied(text_of(payload))),
        PayloadKind::Unknown => Err(EslErrorView::MalformedPayload),
    }
}

/// Reads the payload of a frame as its headers say. Without a content type
/// the payload becomes the body of a message that keeps the frame's headers.
/// A rejection or a disconnect notice gives `AccessDenied` with the notice's
/// text, an unknown content type `MalformedPayload`.
pub fn read_payload(headers: &Headers, payload: &[u8]) -> (parsed: Result<Event, EslError>)
    ensures
        outcome_is(parsed, payload_event(headers@, payload@)),
{
    match classify(headers) {
        PayloadKind::Verbatim => Ok(Event { header: headers.clone(), body: bytes_text(payload) }),
        PayloadKind::Plain => parse_plain(payload),
        PayloadKind::Json => parse_json(payload),
        PayloadKind::Xml => Ok(parse_xml(payload)),
        PayloadKind::Denied => Err(EslError::AccessDenied(bytes_text(payload))),
        PayloadKind::Unknown => Err(EslError::MalformedPayload),
    }
}

/// What the start of a buffer holds, as a value.
pub enum FrameView {
    /// Not yet a whole frame.
    Incomplete,
    /// A frame of `used` bytes with its headers and the message it carries.
    Message { message: EslMsgView, used: nat },
    /// A frame of `used` bytes that cannot be read, or that denies access.
    Rejected { error: EslErrorView, used: nat },
}

/// What the start of a buffer holds.
#[derive(Debug)]
pub enum Frame {
    /// Not yet a whole frame.
    Incomplete,
    /// A frame of `used` bytes with its headers and the message it carries.
    Message { message: EslMsg, used: usize },
    /// A frame of `used` bytes that cannot be read, or that denies access.
    Rejected { error: EslError, used: usize },
}

impl View for Frame {
    type V = FrameView;

    open spec fn view(&self) -> FrameView {
        match self {
            Frame::Incomplete => FrameView::Incomplete,
            Frame::Message { message, used } => FrameView::Message {
                message: message@,
                used: *used as nat,
            },
            Frame::Rejected { error, used } => FrameView::Rejected {
                error: error@,
                used: *used as nat,
            },
        }
    }
}

/// The frame at the start of `buf`.
///
/// Without a header terminator there is no frame yet. The header block
/// before the terminator must be well formed. Without `Content-Length` the
/// frame ends with the terminator and the message has the frame's headers
/// and an empty body, whatever the content type. With it, the frame is
/// whole once that many bytes follow the terminator, and they are read as
/// the headers say.
pub open spec fn frame_of(buf: Seq<u8>) -> FrameView {
    if !has_terminator(buf) {
        FrameView::Incomplete
    } else {
        let end = header_end(buf);
        let payload_at = end + terminator_at(buf, end);
        match header_block(buf.subrange(0, end)) {
            None => FrameView::Rejected {
                error: EslErrorView::MalformedPayload,
                used: payload_at as nat,
            },
            Some(headers) => if !headers.contains_key(CONTENT_LENGTH@) {
                FrameView::Message {
                    message: EslMsgView {
                        header: headers,
                        event: EventView { header: headers, body: Seq::empty() },
                    },
                    used: payload_at as nat,
                }
            } else {
                match length_value(headers[CONTENT_LENGTH@]) {
                    None => FrameView::Rejected {
                        error: EslErrorView::MalformedLength,
                        used: payload_at as nat,
                    },
                    Some(n) => if buf.len() - payload_at < n {
                        FrameView::Incomplete
                    } else {
                        match payload_event(headers, buf.subrange(payload_at, payload_at + n)) {
                            Ok(event) => FrameView::Message {
                                message: EslMsgView { header: headers, event: event },
                                used: (payload_at + n) as nat,
                            },
                            Err(error) => FrameView::Rejected {
                                error: error,
                                used: (payload_at + n) as nat,
                            },
                        }
                    },
                }
            },
        }
    }
}

/// Reads the frame at the start of `src`, without taking anything from it.
pub fn read_frame(src: &[u8]) -> (frame: Frame)
    ensures
        frame@ == frame_of(src@),
        frame@ matches FrameView::Message { used, .. } ==> 0 < used <= src@.len(),
        frame@ matches FrameView::Rejected { used, .. } ==> 0 < used <= src@.len(),
{
    let n: usize = src.len();
    let end: usize = match find_crlfcrlf(src) {
        Some(i) => i,
        None => {
            return Frame::Incomplete;
        },
    };
    proof {
        lemma_header_end(src@, end as int);
    }
    let payload_at: usize = if src[end] == 0x0a {
        end + 2
    } else {
        end + 4
    };
    let headers = match parse_header_block(slice_subrange(src, 0, end)) {
        Ok(headers) => headers,
        Err(error) => {
            return Frame::Rejected { error: error, used: payload_at };
        },
    };
    let length = match headers.get(CONTENT_LENGTH) {
        None => {
            let event = Event { header: headers.clone(), body: String::new() };
            return Frame::Message {
                message: EslMsg { header: headers, event: event },
                used: payload_at,
            };
        },
        Some(text) => parse_length(text),
    };
    match length {
        None => Frame::Rejected { error: EslError::MalformedLength, used: payload_at },
        Some(len) => {
            if n - payload_at < len {
                return Frame::Incomplete;
            }
            let used: usize = payload_at + len;
            match read_payload(&headers, slice_subrange(src, payload_at, used)) {
                Ok(event) => Frame::Message {
                    message: EslMsg { header: headers, event: event },
                    used: used,
                },
                Err(error) => Frame::Rejected { error: error, used: used },
            }
        },
    }
}

/// `bytes::BytesMut`: the buffer between the transport and the codec. What
/// it holds is known through `buffered` alone.
#[verifier::external_type_specification]
#[verifier::external_body]
pub struct ExBytesMut(BytesMut);

/// The bytes that a buffer holds, first to last.
pub uninterp spec fn buffered(buf: BytesMut) -> Seq<u8>;

/// The bytes of a buffer as a slice, through `BytesMut`'s `AsRef<[u8]>`.
#[verifier::external_body]
fn buffer_bytes(buf: &BytesMut) -> (bytes: &[u8])
    ensures
        bytes@ == buffered(*buf),
{
    buf.as_ref()
}

/// Drops the first `count` bytes of a buffer with `Buf::advance`, which
/// panics when the buffer holds fewer.
#[verifier::external_body]
fn buffer_advance(buf: &mut BytesMut, count: usize)
    requires
        count <= buffered(*old(buf)).len(),
    ensures
        buffered(*final(buf)) == buffered(*old(buf)).skip(count as int),
{
    buf.advance(count)
}

/// Appends bytes to a buffer with `BytesMut::extend_from_slice`, which
/// reserves room first; that panics when the capacity it asks for
/// overflows.
#[verifier::external_body]
fn buffer_extend(buf: &mut BytesMut, extend: &[u8])
    requires
        buffered(*old(buf)).len() + extend@.len() <= isize::MAX,
    ensures
        buffered(*final(buf)) == buffered(*old(buf)) + extend@,
{
    buf.extend_from_slice(extend)
}

/// The two line feeds that end a command.
pub open spec fn command_end() -> Seq<u8> {
    seq![0x0au8, 0x0au8]
}

/// The codec of the event socket. It keeps no state of its own: what it
/// decodes depends on the buffer alone.
#[derive(Debug, Clone, Copy)]
pub struct EslCodec {}

impl EslCodec {
    /// A codec.
    pub fn new() -> (codec: EslCodec) {
        EslCodec {  }
    }

    /// Appends a command to `dst`: its bytes as they stand, then two line
    /// feeds. Nothing is trimmed or escaped. Fails with `TransportError`,
    /// and leaves `dst` as it is, when the buffer cannot grow by that much.
    pub fn encode(&mut self, item: String, dst: &mut BytesMut) -> (sent: Result<(), EslError>)
        ensures
            match sent {
                Ok(_) => buffered(*final(dst)) == buffered(*old(dst)) + encode_utf8(item@)
                    + command_end(),
                Err(error) => error@ is TransportError && buffered(*final(dst)) == buffered(
                    *old(dst),
                ),
            },
            sent is Ok <==> buffered(*old(dst)).len() + encode_utf8(item@).len() + 2
                <= isize::MAX,
    {
        let text = item.as_str().as_bytes();
        let limit: usize = usize::MAX / 2;
        let held: usize = buffer_bytes(dst).len();
        if held > limit || text.len() > limit - held || limit - held - text.len() < 2 {
            return Err(EslError::TransportError);
        }
        buffer_extend(dst, text);
        let end: [u8; 2] = [0x0a, 0x0a];
        buffer_extend(dst, end.as_slice());
        proof {
            assert(end@ =~= command_end());
        }
        Ok(())
    }

    /// Takes the next frame from the start of `src`.
    ///
    /// While the buffer holds no whole frame the result is `Ok(None)` and
    /// the buffer stays as it is. A frame that carries a message is taken
    /// from the buffer and its message returned. A frame that cannot be read
    /// or that denies access is taken from the buffer too, and its error
    /// returned, so that the next call goes on with the bytes behind it.
    pub fn decode(&mut self, src: &mut BytesMut) -> (decoded: Result<Option<Event>, EslError>)
        ensures
            match frame_of(buffered(*old(src))) {
                FrameView::Incomplete => decoded matches Ok(None) && buffered(*final(src))
                    == buffered(*old(src)),
                FrameView::Message { message, used } => decoded matches Ok(Some(event))
                    && event@ == message.event && used <= buffered(*old(src)).len() && buffered(
                    *final(src),
                ) == buffered(*old(src)).skip(used as int),
                FrameView::Rejected { error, used } => decoded matches Err(failure) && failure@
                    == error && used <= buffered(*old(src)).len() && buffered(*final(src))
                    == buffered(*old(src)).skip(used as int),
            },
    {
        let frame = read_frame(buffer_bytes(src));
        match frame {
            Frame::Incomplete => Ok(None),
            Frame::Message { message, used } => {
                buffer_advance(src, used);
                Ok(Some(message.event))
            },
            Frame::Rejected { error, used } => {
                buffer_advance(src, used);
                Err(error)
            },
        }
    }
}

/// How many bytes the frame at the start of a buffer takes; 0 while there
/// is no whole frame.
pub open spec fn frame_len(frame: FrameView) -> nat {
    match frame {
        FrameView::Incomplete => 0,
        FrameView::Message { used, .. } => used,
        FrameView::Rejected { used, .. } => used,
    }
}

/// Bytes behind a header terminator do not move it: the first terminator
/// of a buffer is the first terminator of every longer buffer.
proof fn lemma_header_end_extends(buf: Seq<u8>, more: Seq<u8>)
    requires
        has_terminator(buf),
    ensures
        has_terminator(buf + more),
        header_end(buf + more) == header_end(buf),
        terminator_at(buf + more, header_end(buf)) == terminator_at(buf, header_end(buf)),
{
    let end = header_end(buf);
    let all = buf + more;
    lemma_first_terminator(buf);
    assert forall|i: int| 0 <= i < buf.len() implies all[i] == buf[i] by {}
    assert(terminator_at(all, end) == terminator_at(buf, end));
    assert forall|j: int| 0 <= j < end implies terminator_at(all, j) == 0 by {
        assert(terminator_at(buf, j) == 0);
        if terminator_at(all, j) > 0 {
            if j + 4 <= buf.len() {
            } else {
                assert(all[j + 1] == buf[j + 1]);
            }
        }
    }
    lemma_header_end(all, end);
}

/// A buffer that is cut before the end of its first header terminator
/// holds no terminator.
proof fn lemma_header_end_cut(buf: Seq<u8>, cut: int)
    requires
        has_terminator(buf),
        0 <= cut < header_end(buf) + terminator_at(buf, header_end(buf)),
        cut <= buf.len(),
    ensures
        !has_terminator(buf.subrange(0, cut)),
{
    let end = header_end(buf);
    let part = buf.subrange(0, cut);
    lemma_first_terminator(buf);
    assert forall|j: int| terminator_at(part, j) == 0 by {
        if terminator_at(part, j) > 0 {
            assert(part[j] == buf[j]);
            assert(part[j + 1] == buf[j + 1]);
            assert(terminator_at(buf, j) > 0) by {
                if part[j] == 0x0d {
                    assert(part[j + 2] == buf[j + 2]);
                    assert(part[j + 3] == buf[j + 3]);
                }
            }
            if j < end {
                assert(terminator_at(buf, j) == 0);
            }
        }
    }
}

/// A buffer that is cut behind its first header terminator keeps that
/// terminator as its first.
proof fn lemma_header_end_kept(buf: Seq<u8>, cut: int)
    requires
        has_terminator(buf),
        header_end(buf) + terminator_at(buf, header_end(buf)) <= cut <= buf.len(),
    ensures
        has_terminator(buf.subrange(0, cut)),
        header_end(buf.subrange(0, cut)) == header_end(buf),
        terminator_at(buf.subrange(0, cut), header_end(buf)) == terminator_at(
            buf,
            header_end(buf),
        ),
{
    let end = header_end(buf);
    let part = buf.subrange(0, cut);
    lemma_first_terminator(buf);
    assert(terminator_at(part, end) == terminator_at(buf, end)) by {
        assert(part[end] == buf[end]);
        assert(part[end + 1] == buf[end + 1]);
        if buf[end] == 0x0d {
            assert(part[end + 2] == buf[end + 2]);
            assert(part[end + 3] == buf[end + 3]);
        }
    }
    assert forall|j: int| 0 <= j < end implies terminator_at(part, j) == 0 by {
        assert(terminator_at(buf, j) == 0);
        if terminator_at(part, j) > 0 {
            assert(part[j] == buf[j]);
            assert(part[j + 1] == buf[j + 1]);
            if part[j] == 0x0d {
                assert(part[j + 2] == buf[j + 2]);
                assert(part[j + 3] == buf[j + 3]);
            }
        }
    }
    lemma_header_end(part, end);
}

/// What follows a whole frame does not change how the frame is read.
pub proof fn lemma_frame_ignores_what_follows(buf: Seq<u8>, more: Seq<u8>)
    requires
        !(frame_of(buf) is Incomplete),
    ensures
        frame_of(buf + more) == frame_of(buf),
{
    let all = buf + more;
    let end = header_end(buf);
    lemma_header_end_extends(buf, more);
    lemma_first_terminator(buf);
    let payload_at = end + terminator_at(buf, end);
    assert(all.subrange(0, end) =~= buf.subrange(0, end));
    match header_block(buf.subrange(0, end)) {
        Some(headers) => {
            if headers.contains_key(CONTENT_LENGTH@) {
                match length_value(headers[CONTENT_LENGTH@]) {
                    Some(n) => {
                        assert(all.subrange(payload_at, payload_at + n) =~= buf.subrange(
                            payload_at,
                            payload_at + n,
                        ));
                    },
                    None => {},
                }
            }
        },
        None => {},
    }
}

/// A frame that has not arrived whole is not read. Every start of a
/// buffer that ends before the end of the buffer's first frame is
/// incomplete; the decoder then leaves the buffer as it is, and reads the
/// frame once the rest has been appended.
pub proof fn lemma_partial_frame_is_incomplete(buf: Seq<u8>, cut: int)
    requires
        !(frame_of(buf) is Incomplete),
        0 <= cut < frame_len(frame_of(buf)),
    ensures
        frame_len(frame_of(buf)) <= buf.len(),
        frame_of(buf.subrange(0, cut)) is Incomplete,
{
    let part = buf.subrange(0, cut);
    let end = header_end(buf);
    lemma_first_terminator(buf);
    let payload_at = end + terminator_at(buf, end);
    if cut < payload_at {
        lemma_header_end_cut(buf, cut);
    } else {
        lemma_header_end_kept(buf, cut);
        assert(part.subrange(0, end) =~= buf.subrange(0, end));
    }
}

/// A frame reads the same without the bytes behind it.
pub proof fn lemma_frame_reads_alone(buf: Seq<u8>)
    requires
        !(frame_of(buf) is Incomplete),
    ensures
        frame_len(frame_of(buf)) <= buf.len(),
        frame_of(buf.subrange(0, frame_len(frame_of(buf)) as int)) == frame_of(buf),
{
    let used = frame_len(frame_of(buf)) as int;
    let end = header_end(buf);
    lemma_first_terminator(buf);
    let payload_at = end + terminator_at(buf, end);
    let part = buf.subrange(0, used);
    lemma_header_end_kept(buf, used);
    assert(part.subrange(0, end) =~= buf.subrange(0, end));
    match header_block(buf.subrange(0, end)) {
        Some(headers) => {
            if headers.contains_key(CONTENT_LENGTH@) {
                match length_value(headers[CONTENT_LENGTH@]) {
                    Some(n) => {
                        assert(part.subrange(payload_at, payload_at + n) =~= buf.subrange(
                            payload_at,
                            payload_at + n,
                        ));
                    },
                    None => {},
                }
            }
        },
        None => {},
    }
}

/// The body of a message is the payload that its frame announced. A frame
/// without content type whose `Content-Length` is `n` carries a message
/// whose body is the text of the last `n` bytes of the frame; where those
/// are well-formed UTF-8, the body holds them byte for byte, so that it is
/// `n` bytes long.
pub proof fn lemma_body_is_the_announced_payload(buf: Seq<u8>)
    requires
        frame_of(buf) is Message,
        frame_of(buf)->message.header.contains_key(CONTENT_LENGTH@),
        payload_kind(frame_of(buf)->message.header) is Verbatim,
    ensures
        ({
            let message = frame_of(buf)->message;
            let used = frame_of(buf)->Message_used;
            &&& length_value(message.header[CONTENT_LENGTH@]) matches Some(n) && n <= used
                <= buf.len() && message.event.body == text_of(buf.subrange(used - n, used as int))
                && (valid_utf8(buf.subrange(used - n, used as int)) ==> encode_utf8(
                message.event.body,
            ) == buf.subrange(used - n, used as int))
        }),
{
    lemma_first_terminator(buf);
    let message = frame_of(buf)->message;
    let used = frame_of(buf)->Message_used;
    let n = length_value(message.header[CONTENT_LENGTH@])->0;
    if valid_utf8(buf.subrange(used - n, used as int)) {
        lemma_text_keeps_bytes(buf.subrange(used - n, used as int));
    }
}

/// The nested body of an event is the payload that the event announced.
/// An event whose own `Content-Length` is `n` has as its body the text of
/// the `n` bytes behind its header block, and carries the same text under
/// `_body`; where those bytes are well-formed UTF-8, the body holds them
/// byte for byte.
pub proof fn lemma_nested_body_is_the_announced_payload(payload: Seq<u8>)
    requires
        plain_event(payload) is Ok,
        plain_event(payload)->Ok_0.header.contains_key(CONTENT_LENGTH@),
    ensures
        ({
            let event = plain_event(payload)->Ok_0;
            &&& length_value(event.header[CONTENT_LENGTH@]) matches Some(n) && nested_body_at(
                payload,
            ) + n <= payload.len() && event.body == text_of(nested_body(payload, n)) && (
            valid_utf8(nested_body(payload, n)) ==> encode_utf8(event.body) == nested_body(
                payload,
                n,
            ))
            &&& event.header.contains_key(RAW_BODY@)
            &&& event.header[RAW_BODY@] == event.body
        }),
{
    reveal_strlit("_body");
    reveal_strlit("Content-Length");
    assert(RAW_BODY@.len() == 5);
    assert(CONTENT_LENGTH@.len() == 14);
    if has_terminator(payload) {
        lemma_first_terminator(payload);
    }
    let event = plain_event(payload)->Ok_0;
    let n = length_value(event.header[CONTENT_LENGTH@])->0;
    if valid_utf8(nested_body(payload, n)) {
        lemma_text_keeps_bytes(nested_body(payload, n));
    }
}

/// A frame with a payload whose content type is a disconnect notice or a
/// rejection is read as a denial of access, whatever the payload holds.
pub proof fn lemma_notice_denies_access(buf: Seq<u8>)
    requires
        has_terminator(buf),
        header_block(buf.subrange(0, header_end(buf))) is Some,
        ({
            let headers = header_block(buf.subrange(0, header_end(buf)))->0;
            &&& headers.contains_key(CONTENT_TYPE@)
            &&& headers[CONTENT_TYPE@] == DISCONNECT_NOTICE@ || headers[CONTENT_TYPE@]
                == RUDE_REJECTION@
            &&& headers.contains_key(CONTENT_LENGTH@)
            &&& length_value(headers[CONTENT_LENGTH@]) is Some
            &&& length_value(headers[CONTENT_LENGTH@])->0 <= buf.len() - header_end(buf)
                - terminator_at(buf, header_end(buf))
        }),
    ensures
        frame_of(buf) matches FrameView::Rejected { error, .. } && error is AccessDenied,
{
    reveal_strlit("text/event-plain");
    reveal_strlit("text/event-json");
    reveal_strlit("text/event-xml");
    reveal_strlit("text/rude-rejection");
    reveal_strlit("text/disconnect-notice");
    let headers = header_block(buf.subrange(0, header_end(buf)))->0;
    assert(EVENT_PLAIN@.len() == 16);
    assert(EVENT_JSON@.len() == 15);
    assert(EVENT_XML@.len() == 14);
    assert(RUDE_REJECTION@.len() == 19);
    assert(DISCONNECT_NOTICE@.len() == 22);
    assert(payload_kind(headers) == PayloadKind::Denied);
}

} // verus!
