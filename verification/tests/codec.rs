use bytes::BytesMut;
use fs_esl::codec::classify;
use fs_esl::codec::convert2map;
use fs_esl::codec::find_crlfcrlf;
use fs_esl::codec::parse_header_block;
use fs_esl::codec::parse_json;
use fs_esl::codec::parse_plain;
use fs_esl::codec::parse_xml;
use fs_esl::codec::read_frame;
use fs_esl::codec::read_payload;
use fs_esl::codec::EslCodec;
use fs_esl::codec::Frame;
use fs_esl::codec::PayloadKind;
use fs_esl::error::EslError;
use fs_esl::esl::EslEventType;
use fs_esl::event::Headers;

fn frame(head: &str, payload: &[u8]) -> BytesMut {
    let mut buf = BytesMut::new();
    buf.extend_from_slice(head.as_bytes());
    buf.extend_from_slice(format!("Content-Length: {}\n\n", payload.len()).as_bytes());
    buf.extend_from_slice(payload);
    buf
}

#[test]
fn run() {
    assert_eq!(find_crlfcrlf(b"\n\n"), Some(0));
    assert_eq!(find_crlfcrlf(b"\r\n\r\n"), Some(0));
}

#[test]
fn header_end_is_the_first_blank_line() {
    assert_eq!(find_crlfcrlf(b""), None);
    assert_eq!(find_crlfcrlf(b"\n"), None);
    assert_eq!(find_crlfcrlf(b"a: b\n"), None);
    assert_eq!(find_crlfcrlf(b"a: b\r\n\r"), None);
    assert_eq!(find_crlfcrlf(b"a: b\r\n"), None);
    assert_eq!(find_crlfcrlf(b"a: b\n\nc: d\n\n"), Some(4));
    assert_eq!(find_crlfcrlf(b"a: b\r\n\r\nrest"), Some(4));
    assert_eq!(find_crlfcrlf(b"a\r\n\nb"), Some(2));
    assert_eq!(find_crlfcrlf(b"a\n\r\n\r\n"), Some(2));
    assert_eq!(find_crlfcrlf(b"\r\n\n"), Some(1));
}

#[test]
fn heartbeat_event_is_decoded() {
    let mut codec = EslCodec::new();
    let mut buf = BytesMut::from(
        &b"Content-Length: 22\r\nContent-Type: text/event-plain\r\n\r\nEvent-Name: HEARTBEAT\n"[..],
    );
    let event = codec.decode(&mut buf).unwrap().unwrap();
    assert_eq!(event.get_header("Event-Name"), Some("HEARTBEAT"));
    assert_eq!(event.get_type(), Some("HEARTBEAT"));
    assert_eq!(event.get_body(), "");
    assert_eq!(event.header().len(), 1);
    assert_eq!(buf.len(), 0);
}

#[test]
fn heartbeat_event_with_a_short_length_is_cut_at_that_length() {
    let mut codec = EslCodec::new();
    let mut buf = BytesMut::from(
        &b"Content-Length: 20\r\nContent-Type: text/event-plain\r\n\r\nEvent-Name: HEARTBEAT\n"[..],
    );
    let event = codec.decode(&mut buf).unwrap().unwrap();
    assert_eq!(event.get_header("Event-Name"), Some("HEARTBEA"));
    assert_eq!(event.get_body(), "");
    assert_eq!(&buf[..], b"T\n");
}

#[test]
fn encode_appends_the_command_and_two_line_feeds() {
    let mut codec = EslCodec::new();
    let mut buf = BytesMut::new();
    assert_eq!(codec.encode("api status".to_string(), &mut buf), Ok(()));
    assert_eq!(&buf[..], b"api status\n\n");
    assert_eq!(codec.encode("  exit \r".to_string(), &mut buf), Ok(()));
    assert_eq!(&buf[..], b"api status\n\n  exit \r\n\n");
    assert_eq!(codec.encode(String::new(), &mut buf), Ok(()));
    assert_eq!(&buf[..], b"api status\n\n  exit \r\n\n\n\n");
}

#[test]
fn encode_keeps_bytes_of_text_beyond_ascii() {
    let mut codec = EslCodec::new();
    let mut buf = BytesMut::new();
    assert_eq!(codec.encode("api say h\u{e9}".to_string(), &mut buf), Ok(()));
    assert_eq!(&buf[..], b"api say h\xc3\xa9\n\n");
}

#[test]
fn round_trip_command_reply_without_content_type() {
    let mut codec = EslCodec::new();
    let mut out = BytesMut::new();
    codec.encode("api status".to_string(), &mut out).unwrap();
    assert_eq!(&out[..], b"api status\n\n");
    let mut inbound = BytesMut::from(&b"Content-Length: 12\n\nUP 0 years\n\n"[..]);
    let event = codec.decode(&mut inbound).unwrap().unwrap();
    assert_eq!(event.get_body(), "UP 0 years\n\n");
    assert_eq!(event.get_header("Content-Length"), Some("12"));
    assert_eq!(event.header().len(), 1);
    assert_eq!(inbound.len(), 0);
}

#[test]
fn round_trip_plain_event() {
    let mut codec = EslCodec::new();
    let mut out = BytesMut::new();
    codec.encode("event plain BACKGROUND_JOB".to_string(), &mut out).unwrap();
    assert_eq!(&out[..], b"event plain BACKGROUND_JOB\n\n");
    let payload = b"Event-Name: BACKGROUND_JOB\n\
Core-UUID: b505a8f7-4a5d-4713-8302-1ae56f727110\n\
Event-Date-GMT: Thu,%2008%20Jun%202023%2001%3A55%3A24%20GMT\n\
Job-UUID: 78eca064-62f9-49ed-8bb7-e409fd957fab\n\
Job-Command: reloadxml\n\
Content-Length: 14\n\
\n\
+OK [Success]\n";
    let mut inbound = frame("Content-Type: text/event-plain\n", payload);
    let event = codec.decode(&mut inbound).unwrap().unwrap();
    assert_eq!(event.get_type(), Some("BACKGROUND_JOB"));
    assert_eq!(event.job_uuid(), Some("78eca064-62f9-49ed-8bb7-e409fd957fab"));
    assert_eq!(event.get_header("Job-Command"), Some("reloadxml"));
    assert_eq!(event.get_header("Content-Length"), Some("14"));
    assert_eq!(event.get_body(), "+OK [Success]\n");
    assert_eq!(event.get_body().len(), 14);
    assert_eq!(event.get_header("_body"), Some("+OK [Success]\n"));
    assert_eq!(event.header().len(), 7);
    assert_eq!(inbound.len(), 0);
}

#[test]
fn round_trip_json_event() {
    let mut codec = EslCodec::new();
    let mut out = BytesMut::new();
    codec.encode("event json HEARTBEAT".to_string(), &mut out).unwrap();
    assert_eq!(&out[..], b"event json HEARTBEAT\n\n");
    let payload = b"{\"Event-Name\":\"HEARTBEAT\",\"Up-Time\":\"0 years\",\"Event-Name\":\"RE\"}";
    let mut inbound = frame("Content-Type: text/event-json\n", payload);
    let event = codec.decode(&mut inbound).unwrap().unwrap();
    assert_eq!(event.get_type(), Some("RE"));
    assert_eq!(event.get_header("Up-Time"), Some("0 years"));
    assert_eq!(event.header().len(), 2);
    assert_eq!(event.get_body(), "");
    assert_eq!(inbound.len(), 0);
}

#[test]
fn header_only_frame_keeps_its_headers() {
    let mut codec = EslCodec::new();
    let mut buf = BytesMut::from(&b"Content-Type: auth/request\n\nnext"[..]);
    let event = codec.decode(&mut buf).unwrap().unwrap();
    assert_eq!(event.content_type(), Some("auth/request"));
    assert_eq!(event.get_body(), "");
    assert_eq!(event.header().len(), 1);
    assert_eq!(&buf[..], b"next");
    assert!(matches!(codec.decode(&mut buf), Ok(None)));
    assert_eq!(&buf[..], b"next");
}

#[test]
fn header_only_frame_with_carriage_returns() {
    let mut codec = EslCodec::new();
    let mut buf = BytesMut::from(
        &b"Content-Type: command/reply\r\nReply-Text: +OK accepted\r\n\r\n"[..],
    );
    let event = codec.decode(&mut buf).unwrap().unwrap();
    assert_eq!(event.get_header("Reply-Text"), Some("+OK accepted"));
    assert_eq!(event.content_type(), Some("command/reply"));
    assert_eq!(buf.len(), 0);
}

#[test]
fn header_only_notice_is_a_message() {
    let mut codec = EslCodec::new();
    let mut buf = BytesMut::from(&b"Content-Type: text/disconnect-notice\n\n"[..]);
    let event = codec.decode(&mut buf).unwrap().unwrap();
    assert_eq!(event.content_type(), Some("text/disconnect-notice"));
    assert_eq!(buf.len(), 0);
}

#[test]
fn frames_are_taken_one_by_one() {
    let mut codec = EslCodec::new();
    let mut buf = BytesMut::from(&b"A: 1\n\nContent-Length: 3\n\nabcB: 2\n\n"[..]);
    let first = codec.decode(&mut buf).unwrap().unwrap();
    assert_eq!(first.get_header("A"), Some("1"));
    let second = codec.decode(&mut buf).unwrap().unwrap();
    assert_eq!(second.get_body(), "abc");
    let third = codec.decode(&mut buf).unwrap().unwrap();
    assert_eq!(third.get_header("B"), Some("2"));
    assert!(matches!(codec.decode(&mut buf), Ok(None)));
    assert_eq!(buf.len(), 0);
}

#[test]
fn partial_input_yields_nothing_and_keeps_the_buffer() {
    let whole: &[u8] = b"Content-Length: 22\nContent-Type: text/event-plain\n\nEvent-Name: HEARTBEAT\n";
    let mut codec = EslCodec::new();
    for cut in 0..whole.len() {
        let mut buf = BytesMut::from(&whole[..cut]);
        assert!(matches!(codec.decode(&mut buf), Ok(None)));
        assert_eq!(&buf[..], &whole[..cut]);
        buf.extend_from_slice(&whole[cut..]);
        let event = codec.decode(&mut buf).unwrap().unwrap();
        assert_eq!(event.get_type(), Some("HEARTBEAT"));
        assert_eq!(event.header().len(), 1);
        assert_eq!(buf.len(), 0);
        assert!(matches!(codec.decode(&mut buf), Ok(None)));
    }
}

#[test]
fn input_in_three_appends_yields_one_message() {
    let mut codec = EslCodec::new();
    let mut buf = BytesMut::new();
    buf.extend_from_slice(b"Content-Len");
    assert!(matches!(codec.decode(&mut buf), Ok(None)));
    buf.extend_from_slice(b"gth: 5\n\nhe");
    assert!(matches!(codec.decode(&mut buf), Ok(None)));
    assert_eq!(&buf[..], b"Content-Length: 5\n\nhe");
    buf.extend_from_slice(b"llo");
    let event = codec.decode(&mut buf).unwrap().unwrap();
    assert_eq!(event.get_body(), "hello");
    assert!(matches!(codec.decode(&mut buf), Ok(None)));
    assert_eq!(buf.len(), 0);
}

#[test]
fn disconnect_notice_denies_access() {
    let mut codec = EslCodec::new();
    let mut buf = BytesMut::from(
        &b"Content-Type: text/disconnect-notice\nContent-Length: 4\n\nbye\nrest"[..],
    );
    assert_eq!(
        codec.decode(&mut buf).unwrap_err(),
        EslError::AccessDenied("bye\n".to_string())
    );
    assert_eq!(&buf[..], b"rest");
}

#[test]
fn rude_rejection_denies_access() {
    let mut codec = EslCodec::new();
    let mut buf = frame("Content-Type: text/rude-rejection\n", b"Access Denied, go away.\n");
    assert_eq!(
        codec.decode(&mut buf).unwrap_err(),
        EslError::AccessDenied("Access Denied, go away.\n".to_string())
    );
    assert_eq!(buf.len(), 0);
}

#[test]
fn notice_waits_for_its_payload() {
    let mut codec = EslCodec::new();
    let mut buf = BytesMut::from(&b"Content-Type: text/disconnect-notice\nContent-Length: 4\n\nby"[..]);
    assert!(matches!(codec.decode(&mut buf), Ok(None)));
    assert_eq!(buf.len(), 58);
}

#[test]
fn length_that_is_no_number_is_malformed() {
    let mut codec = EslCodec::new();
    for bad in ["abc", "-1", "", "1 2", "0x10", "+", "1.5", "99999999999999999999999999"] {
        let mut buf = BytesMut::new();
        buf.extend_from_slice(format!("Content-Length: {}\n\nrest", bad).as_bytes());
        assert_eq!(codec.decode(&mut buf).unwrap_err(), EslError::MalformedLength);
        assert_eq!(&buf[..], b"rest");
    }
}

#[test]
fn length_may_carry_a_plus_sign_and_zeros() {
    let mut codec = EslCodec::new();
    let mut buf = BytesMut::from(&b"Content-Length: +003\n\nabcd"[..]);
    let event = codec.decode(&mut buf).unwrap().unwrap();
    assert_eq!(event.get_body(), "abc");
    assert_eq!(&buf[..], b"d");
    let mut empty = BytesMut::from(&b"Content-Length: 0\n\nabcd"[..]);
    let event = codec.decode(&mut empty).unwrap().unwrap();
    assert_eq!(event.get_body(), "");
    assert_eq!(&empty[..], b"abcd");
}

#[test]
fn header_line_without_colon_is_malformed() {
    let mut codec = EslCodec::new();
    let mut buf = BytesMut::from(&b"Content-Length: 3\nnonsense\n\nabc"[..]);
    assert_eq!(codec.decode(&mut buf).unwrap_err(), EslError::MalformedPayload);
    assert_eq!(&buf[..], b"abc");
}

#[test]
fn unknown_content_type_is_dropped() {
    let mut codec = EslCodec::new();
    let mut buf = BytesMut::from(&b"Content-Type: api/response\nContent-Length: 3\n\nabcA: 1\n\n"[..]);
    assert_eq!(codec.decode(&mut buf).unwrap_err(), EslError::MalformedPayload);
    assert_eq!(&buf[..], b"A: 1\n\n");
    let event = codec.decode(&mut buf).unwrap().unwrap();
    assert_eq!(event.get_header("A"), Some("1"));
}

#[test]
fn json_that_is_no_object_of_strings_is_malformed() {
    let mut codec = EslCodec::new();
    for bad in ["{", "[]", "{\"a\":1}", "{\"a\":\"b\"} x", "", "\"a\"", "{\"a\":{\"b\":\"c\"}}"] {
        let mut buf = frame("Content-Type: text/event-json\n", bad.as_bytes());
        buf.extend_from_slice(b"tail");
        assert_eq!(codec.decode(&mut buf).unwrap_err(), EslError::MalformedPayload);
        assert_eq!(&buf[..], b"tail");
    }
}

#[test]
fn xml_event_is_empty() {
    let mut codec = EslCodec::new();
    let mut buf = frame("Content-Type: text/event-xml\n", b"<event><a>b</a></event>");
    let event = codec.decode(&mut buf).unwrap().unwrap();
    assert_eq!(event.header().len(), 0);
    assert_eq!(event.get_body(), "");
    assert_eq!(buf.len(), 0);
    let direct = parse_xml(b"<x/>");
    assert!(direct.header().is_empty());
    assert_eq!(direct.get_body(), "");
}

#[test]
fn header_block_grammar() {
    let headers = parse_header_block(
        b"  Key-A :  value a  \r\nKey-B:b:with:colons\n\n   \nEmpty:\n: anonymous\nKey-A: again",
    )
    .unwrap();
    assert_eq!(headers.get("Key-A"), Some("again"));
    assert_eq!(headers.get("Key-B"), Some("b:with:colons"));
    assert_eq!(headers.get("Empty"), Some(""));
    assert_eq!(headers.get(""), Some("anonymous"));
    assert_eq!(headers.get("key-a"), None);
    assert_eq!(headers.len(), 4);
    assert_eq!(parse_header_block(b"").unwrap().len(), 0);
    assert_eq!(parse_header_block(b"\n\n\n").unwrap().len(), 0);
    assert_eq!(parse_header_block(b"a: b\nnope").unwrap_err(), EslError::MalformedPayload);
    assert_eq!(parse_header_block(b"x").unwrap_err(), EslError::MalformedPayload);
}

#[test]
fn header_text_that_is_not_utf8_is_replaced() {
    let headers = parse_header_block(b"K\xff: v\xc3\xa9\xfe").unwrap();
    assert_eq!(headers.get("K\u{fffd}"), Some("v\u{e9}\u{fffd}"));
    let mut codec = EslCodec::new();
    let mut buf = BytesMut::from(&b"Content-Length: 3\n\na\xffb"[..]);
    let event = codec.decode(&mut buf).unwrap().unwrap();
    assert_eq!(event.get_body(), "a\u{fffd}b");
}

#[test]
fn convert2map_reads_each_format() {
    let plain = convert2map(b"a: 1\nb: 2", EslEventType::PLAIN).unwrap();
    assert_eq!(plain.get("a"), Some("1"));
    assert_eq!(plain.get("b"), Some("2"));
    assert_eq!(plain.len(), 2);
    let json = convert2map(b" {\"a\": \"1\", \"b\": \"\\u0041\\n\"} ", EslEventType::JSON).unwrap();
    assert_eq!(json.get("a"), Some("1"));
    assert_eq!(json.get("b"), Some("A\n"));
    assert_eq!(json.len(), 2);
    let xml = convert2map(b"<a/>", EslEventType::XML).unwrap();
    assert_eq!(xml.len(), 0);
    assert_eq!(convert2map(b"a", EslEventType::PLAIN).unwrap_err(), EslError::MalformedPayload);
    assert_eq!(convert2map(b"a: 1", EslEventType::JSON).unwrap_err(), EslError::MalformedPayload);
}

#[test]
fn parse_plain_reads_headers_and_nested_body() {
    let event = parse_plain(b"Job-UUID: j1\nContent-Length: 3\n\nabcdef").unwrap();
    assert_eq!(event.job_uuid(), Some("j1"));
    assert_eq!(event.get_body(), "abc");
    assert_eq!(event.get_header("_body"), Some("abc"));
    assert_eq!(event.header().len(), 3);
    let crlf = parse_plain(b"A: 1\r\nContent-Length: 2\r\n\r\nxy").unwrap();
    assert_eq!(crlf.get_body(), "xy");
    let bare = parse_plain(b"A: 1\nB: 2\n").unwrap();
    assert_eq!(bare.get_body(), "");
    assert_eq!(bare.get_header("_body"), None);
    assert_eq!(bare.header().len(), 2);
    let no_length = parse_plain(b"A: 1\n\nignored").unwrap();
    assert_eq!(no_length.get_body(), "");
    assert_eq!(no_length.header().len(), 1);
    let zero = parse_plain(b"Content-Length: 0").unwrap();
    assert_eq!(zero.get_body(), "");
    assert_eq!(zero.get_header("_body"), Some(""));
}

#[test]
fn parse_plain_rejects_what_does_not_fit() {
    assert_eq!(parse_plain(b"Content-Length: 4\n\nabc").unwrap_err(), EslError::MalformedLength);
    assert_eq!(parse_plain(b"Content-Length: 1").unwrap_err(), EslError::MalformedLength);
    assert_eq!(parse_plain(b"Content-Length: x\n\nabc").unwrap_err(), EslError::MalformedLength);
    assert_eq!(parse_plain(b"oops\n\nabc").unwrap_err(), EslError::MalformedPayload);
}

#[test]
fn parse_json_reads_fields_as_headers() {
    let event = parse_json(b"{\"Event-Name\":\"CUSTOM\",\"_body\":\"text\"}").unwrap();
    assert_eq!(event.get_type(), Some("CUSTOM"));
    assert_eq!(event.get_header("_body"), Some("text"));
    assert_eq!(event.get_body(), "");
    assert_eq!(event.header().len(), 2);
    assert_eq!(parse_json(b"{}").unwrap().header().len(), 0);
    assert_eq!(parse_json(b"{\"a\":null}").unwrap_err(), EslError::MalformedPayload);
}

#[test]
fn payload_kind_follows_the_content_type() {
    let mut headers = Headers::new();
    assert_eq!(classify(&headers), PayloadKind::Verbatim);
    headers.insert("Content-Type".to_string(), "text/event-plain".to_string());
    assert_eq!(classify(&headers), PayloadKind::Plain);
    headers.insert("Content-Type".to_string(), "text/event-json".to_string());
    assert_eq!(classify(&headers), PayloadKind::Json);
    headers.insert("Content-Type".to_string(), "text/event-xml".to_string());
    assert_eq!(classify(&headers), PayloadKind::Xml);
    headers.insert("Content-Type".to_string(), "text/rude-rejection".to_string());
    assert_eq!(classify(&headers), PayloadKind::Denied);
    headers.insert("Content-Type".to_string(), "text/disconnect-notice".to_string());
    assert_eq!(classify(&headers), PayloadKind::Denied);
    headers.insert("Content-Type".to_string(), "Text/Event-Plain".to_string());
    assert_eq!(classify(&headers), PayloadKind::Unknown);
    headers.insert("content-type".to_string(), "text/event-plain".to_string());
    assert_eq!(classify(&headers), PayloadKind::Unknown);
}

#[test]
fn read_payload_without_content_type_keeps_headers_and_payload() {
    let mut headers = Headers::new();
    headers.insert("Reply-Text".to_string(), "+OK".to_string());
    let event = read_payload(&headers, b"  raw: payload \n\n").unwrap();
    assert_eq!(event.get_body(), "  raw: payload \n\n");
    assert_eq!(event.get_header("Reply-Text"), Some("+OK"));
    assert_eq!(event.header().len(), 1);
}

#[test]
fn read_frame_reports_headers_message_and_length() {
    match read_frame(b"Content-Type: text/event-plain\nContent-Length: 5\n\nA: 1\nrest") {
        Frame::Message { message, used } => {
            assert_eq!(used, 55);
            assert_eq!(message.header.get("Content-Type"), Some("text/event-plain"));
            assert_eq!(message.header.get("Content-Length"), Some("5"));
            assert_eq!(message.ref_event().get_header("A"), Some("1"));
            assert_eq!(message.ref_event().header().len(), 1);
            let copy = message.event();
            assert_eq!(copy.get_header("A"), Some("1"));
        }
        other => panic!("unexpected {:?}", other),
    }
    assert!(matches!(read_frame(b"A: 1\n"), Frame::Incomplete));
    assert!(matches!(read_frame(b"Content-Length: 2\n\na"), Frame::Incomplete));
    match read_frame(b"bad\r\n\r\nrest") {
        Frame::Rejected { error, used } => {
            assert_eq!(error, EslError::MalformedPayload);
            assert_eq!(used, 7);
        }
        other => panic!("unexpected {:?}", other),
    }
}

#[test]
fn content_length_counts_bytes_not_characters() {
    let mut codec = EslCodec::new();
    let mut buf = BytesMut::from(&b"Content-Length: 3\n\n\xc3\xa9xy"[..]);
    let event = codec.decode(&mut buf).unwrap().unwrap();
    assert_eq!(event.get_body(), "\u{e9}x");
    assert_eq!(event.get_body().chars().count(), 2);
    assert_eq!(event.get_body().len(), 3);
    assert_eq!(&buf[..], b"y");
    let nested = parse_plain(b"Content-Length: 4\n\n\xe2\x82\xacz").unwrap();
    assert_eq!(nested.get_body(), "\u{20ac}z");
    assert_eq!(nested.get_body().len(), 4);
}

#[test]
fn header_text_is_trimmed_of_every_white_space() {
    let headers = parse_header_block(b"A: \xc2\xa0x").unwrap();
    assert_eq!(headers.get("A"), Some("x"));
    let both = parse_header_block(b"A:\xc2\xa0 x y\xe3\x80\x80 \r\n\xc2\xa0 B\xe2\x80\x83: z").unwrap();
    assert_eq!(both.get("A"), Some("x y"));
    assert_eq!(both.get("B"), Some("z"));
    assert_eq!(both.len(), 2);
    let converted = convert2map(b"Key :\xc2\x85value\xe2\x80\xa8", EslEventType::PLAIN).unwrap();
    assert_eq!(converted.get("Key"), Some("value"));
    let inside = parse_header_block(b"A: x\xc2\xa0y").unwrap();
    assert_eq!(inside.get("A"), Some("x\u{a0}y"));
}

#[test]
fn a_line_of_white_space_is_blank() {
    let headers = parse_header_block(b"A: 1\n\xc2\xa0 \xe3\x80\x80\nB: 2").unwrap();
    assert_eq!(headers.len(), 2);
    assert_eq!(
        parse_header_block(b"A: 1\n\xc2\xa0x\nB: 2").unwrap_err(),
        EslError::MalformedPayload
    );
    assert_eq!(
        parse_header_block(b"A: 1\n\xe2\x80\x8b\nB: 2").unwrap_err(),
        EslError::MalformedPayload
    );
}

#[test]
fn a_length_behind_a_no_break_space_is_read() {
    let mut codec = EslCodec::new();
    let mut buf = BytesMut::from(&b"Content-Length: \xc2\xa05\xc2\xa0\n\nhello!"[..]);
    let event = codec.decode(&mut buf).unwrap().unwrap();
    assert_eq!(event.get_body(), "hello");
    assert_eq!(event.get_header("Content-Length"), Some("5"));
    assert_eq!(&buf[..], b"!");
    let nested = parse_plain(b"Content-Length:\xc2\xa02\n\nabc").unwrap();
    assert_eq!(nested.get_body(), "ab");
}
