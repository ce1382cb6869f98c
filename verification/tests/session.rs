use fs_esl::error::EslError;
use fs_esl::esl::api_command;
use fs_esl::esl::auth_command;
use fs_esl::esl::bgapi_command;
use fs_esl::esl::execute_command;
use fs_esl::esl::subscribe_command;
use fs_esl::esl::EslEventType;
use fs_esl::esl::EslHandle;
use fs_esl::esl::Routed;
use fs_esl::event::Event;
use std::collections::VecDeque;

fn handle() -> EslHandle<&'static str> {
    EslHandle::inbound("127.0.0.1:8021", "", "ClueCon")
}

fn reply(text: &str) -> Option<Result<Event, EslError>> {
    let mut event = Event::new();
    event.add_header("Reply-Text", text);
    Some(Ok(event))
}

fn job_result(job: &str, body: &str) -> Option<Result<Event, EslError>> {
    let mut event = Event::new();
    event.add_header("Event-Name", "BACKGROUND_JOB");
    event.add_header("Job-UUID", job);
    event.add_body(body);
    Some(Ok(event))
}

fn expect_reply(routed: Routed<&'static str>, ticket: u64, slot: &str, text: &str) {
    match routed {
        Routed::Reply { waiter, event } => {
            assert_eq!(waiter.ticket, ticket);
            assert_eq!(waiter.slot, slot);
            assert_eq!(event.get_header("Reply-Text"), Some(text));
        }
        other => panic!("unexpected {:?}", other),
    }
}

fn expect_job(routed: Routed<&'static str>, ticket: u64, slot: &str, body: &str) {
    match routed {
        Routed::JobResult { waiter, event } => {
            assert_eq!(waiter.ticket, ticket);
            assert_eq!(waiter.slot, slot);
            assert_eq!(event.get_body(), body);
        }
        other => panic!("unexpected {:?}", other),
    }
}

#[test]
fn a_new_session_is_idle() {
    let session = handle();
    assert_eq!(session.socket(), "127.0.0.1:8021");
    assert!(!session.is_closed());
    assert!(!session.is_authenticated());
    assert_eq!(session.pending_len(), 0);
    assert_eq!(session.job_len(), 0);
}

#[test]
fn command_texts() {
    assert_eq!(api_command("status", ""), "api status ");
    assert_eq!(api_command("originate", "user/1000 &park"), "api originate user/1000 &park");
    assert_eq!(bgapi_command("reloadxml", "", "j-1"), "bgapi reloadxml\nJob-UUID: j-1");
    assert_eq!(
        bgapi_command("originate", "user/1000 &park", "j-2"),
        "bgapi originate user/1000 &park\nJob-UUID: j-2"
    );
    assert_eq!(
        execute_command("playback", "/tmp/a.wav", "call-1", "e-1"),
        "sendmsg call-1\nexecute-app-name: playback\nexecute-app-arg: /tmp/a.wav\ncall-command: execute\nEvent-UUID: e-1"
    );
    assert_eq!(
        subscribe_command(EslEventType::PLAIN, &vec!["BACKGROUND_JOB", "CHANNEL_CREATE", "CHANNEL_ANSWER"]),
        "event plain BACKGROUND_JOB CHANNEL_CREATE CHANNEL_ANSWER"
    );
    assert_eq!(subscribe_command(EslEventType::JSON, &vec!["ALL"]), "event json ALL");
    assert_eq!(subscribe_command(EslEventType::XML, &Vec::new()), "event xml ");
    assert_eq!(auth_command("", "ClueCon"), "auth ClueCon");
    assert_eq!(auth_command("admin", "ClueCon"), "auth admin ClueCon");
}

#[test]
fn registered_commands_carry_ticket_and_text() {
    let mut session = handle();
    let first = session.api("status", "", "a").unwrap();
    assert_eq!(first.ticket, 0);
    assert_eq!(first.command, "api status ");
    let second = session.subscribe(EslEventType::PLAIN, vec!["ALL"], "b").unwrap();
    assert_eq!(second.ticket, 1);
    assert_eq!(second.command, "event plain ALL");
    let third = session.auth("c").unwrap();
    assert_eq!(third.ticket, 2);
    assert_eq!(third.command, "auth ClueCon");
    let fourth = session.disconnect("d").unwrap();
    assert_eq!(fourth.ticket, 3);
    assert_eq!(fourth.command, "exit");
    let fifth = session.send_recv("log info".to_string(), "e").unwrap();
    assert_eq!(fifth.ticket, 4);
    assert_eq!(fifth.command, "log info");
    let sixth = session.execute_with_uuid("park", "", "call-9", "e-9".to_string(), "f").unwrap();
    assert_eq!(sixth.ticket, 5);
    assert_eq!(sixth.uuid, "e-9");
    assert_eq!(
        sixth.command,
        "sendmsg call-9\nexecute-app-name: park\nexecute-app-arg: \ncall-command: execute\nEvent-UUID: e-9"
    );
    assert_eq!(session.pending_len(), 6);
    assert_eq!(session.job_len(), 0);
    let mut named: EslHandle<&'static str> = EslHandle::inbound("host:1", "admin", "secret");
    assert_eq!(named.auth("x").unwrap().command, "auth admin secret");
}

#[test]
fn replies_resolve_in_send_order_with_jobs_interleaved() {
    let mut session = handle();
    let a = session.api("one", "", "caller-a").unwrap();
    let job = session.bgapi_with_job("long", "", "job-1".to_string(), "caller-j").unwrap();
    let b = session.api("two", "", "caller-b").unwrap();
    let c = session.api("three", "", "caller-c").unwrap();
    assert_eq!((a.ticket, job.ticket, b.ticket, c.ticket), (0, 1, 2, 3));
    assert_eq!(session.pending_len(), 3);
    assert_eq!(session.job_len(), 1);

    expect_reply(session.dispatch(reply("r1")), 0, "caller-a", "r1");
    assert!(matches!(
        session.dispatch(job_result("job-x", "stray")),
        Routed::Skipped { error: EslError::UnknownJobId(_) }
    ));
    expect_reply(session.dispatch(reply("r2")), 2, "caller-b", "r2");
    expect_job(session.dispatch(job_result("job-1", "done")), 1, "caller-j", "done");
    expect_reply(session.dispatch(reply("r3")), 3, "caller-c", "r3");
    assert_eq!(session.pending_len(), 0);
    assert_eq!(session.job_len(), 0);
}

#[test]
fn job_results_resolve_by_identifier_in_any_order() {
    let mut session = handle();
    let one = session.bgapi_with_job("a", "x y", "job-1".to_string(), "first").unwrap();
    let two = session.bgapi_with_job("b", "", "job-2".to_string(), "second").unwrap();
    let three = session.bgapi_with_job("c", "", "job-3".to_string(), "third").unwrap();
    assert_eq!(one.command, "bgapi a x y\nJob-UUID: job-1");
    assert_eq!(two.command, "bgapi b\nJob-UUID: job-2");
    assert_eq!(three.uuid, "job-3");
    let sync = session.api("status", "", "sync").unwrap();

    expect_job(session.dispatch(job_result("job-3", "r3")), three.ticket, "third", "r3");
    expect_reply(session.dispatch(reply("ok")), sync.ticket, "sync", "ok");
    expect_job(session.dispatch(job_result("job-1", "r1")), one.ticket, "first", "r1");
    assert!(matches!(
        session.dispatch(job_result("job-1", "again")),
        Routed::Skipped { error: EslError::UnknownJobId(_) }
    ));
    expect_job(session.dispatch(job_result("job-2", "r2")), two.ticket, "second", "r2");
    assert_eq!(session.job_len(), 0);
}

#[test]
fn a_message_for_an_unknown_job_resolves_nobody() {
    let mut session = handle();
    session.api("status", "", "sync").unwrap();
    session.bgapi_with_job("a", "", "job-1".to_string(), "job").unwrap();
    match session.dispatch(job_result("job-9", "stray")) {
        Routed::Skipped { error } => assert_eq!(error, EslError::UnknownJobId("job-9".to_string())),
        other => panic!("unexpected {:?}", other),
    }
    assert_eq!(session.pending_len(), 1);
    assert_eq!(session.job_len(), 1);
    assert!(!session.is_closed());
    expect_reply(session.dispatch(reply("ok")), 0, "sync", "ok");
}

#[test]
fn a_message_that_nobody_waits_for_is_unsolicited() {
    let mut session = handle();
    match session.dispatch(reply("event")) {
        Routed::Unsolicited { event } => assert_eq!(event.get_header("Reply-Text"), Some("event")),
        other => panic!("unexpected {:?}", other),
    }
    assert!(!session.is_closed());
}

#[test]
fn access_denied_fails_every_waiter() {
    let mut session = handle();
    session.api("one", "", "a").unwrap();
    session.bgapi_with_job("x", "", "job-1".to_string(), "j1").unwrap();
    session.api("two", "", "b").unwrap();
    session.bgapi_with_job("y", "", "job-2".to_string(), "j2").unwrap();
    let denied = EslError::AccessDenied("Disconnected, goodbye.\n".to_string());
    match session.dispatch(Some(Err(denied.clone()))) {
        Routed::Closed { waiters, error } => {
            assert_eq!(error, denied);
            let slots: Vec<&str> = waiters.iter().map(|w| w.slot).collect();
            assert_eq!(slots, vec!["a", "b", "j1", "j2"]);
            let tickets: Vec<u64> = waiters.iter().map(|w| w.ticket).collect();
            assert_eq!(tickets, vec![0, 2, 1, 3]);
        }
        other => panic!("unexpected {:?}", other),
    }
    assert!(session.is_closed());
    assert_eq!(session.pending_len(), 0);
    assert_eq!(session.job_len(), 0);
}

#[test]
fn the_end_of_the_stream_fails_every_waiter() {
    let mut session = handle();
    session.api("one", "", "a").unwrap();
    match session.dispatch(None) {
        Routed::Closed { waiters, error } => {
            assert_eq!(error, EslError::TransportError);
            assert_eq!(waiters.len(), 1);
            assert_eq!(waiters[0].slot, "a");
        }
        other => panic!("unexpected {:?}", other),
    }
    assert!(session.is_closed());
    match session.dispatch(Some(Err(EslError::TransportError))) {
        Routed::Closed { waiters, error } => {
            assert_eq!(error, EslError::TransportError);
            assert!(waiters.is_empty());
        }
        other => panic!("unexpected {:?}", other),
    }
}

#[test]
fn frame_errors_are_skipped() {
    let mut session = handle();
    session.api("one", "", "a").unwrap();
    for error in [
        EslError::MalformedLength,
        EslError::MalformedPayload,
        EslError::Timeout,
        EslError::CorrelationFailure,
        EslError::UnknownJobId("j".to_string()),
    ] {
        assert!(!error.is_fatal());
        match session.dispatch(Some(Err(error.clone()))) {
            Routed::Skipped { error: skipped } => assert_eq!(skipped, error),
            other => panic!("unexpected {:?}", other),
        }
    }
    assert!(EslError::TransportError.is_fatal());
    assert!(EslError::AccessDenied(String::new()).is_fatal());
    assert!(!session.is_closed());
    assert_eq!(session.pending_len(), 1);
    expect_reply(session.dispatch(reply("ok")), 0, "a", "ok");
}

#[test]
fn a_closed_session_takes_no_callers() {
    let mut session = handle();
    session.dispatch(None);
    assert_eq!(session.api("status", "", "a").unwrap_err(), EslError::CorrelationFailure);
    assert_eq!(session.auth("a").unwrap_err(), EslError::CorrelationFailure);
    assert_eq!(session.disconnect("a").unwrap_err(), EslError::CorrelationFailure);
    assert_eq!(
        session.subscribe(EslEventType::JSON, vec!["ALL"], "a").unwrap_err(),
        EslError::CorrelationFailure
    );
    assert_eq!(session.bgapi("status", "", "a").unwrap_err(), EslError::CorrelationFailure);
    assert_eq!(session.execute("park", "", "c", "a").unwrap_err(), EslError::CorrelationFailure);
    assert_eq!(session.receive("a", 5).unwrap_err(), EslError::CorrelationFailure);
    assert_eq!(session.pending_len(), 0);
    assert_eq!(session.job_len(), 0);
}

#[test]
fn a_job_identifier_is_registered_once() {
    let mut session = handle();
    session.bgapi_with_job("a", "", "job-1".to_string(), "first").unwrap();
    assert_eq!(
        session.bgapi_with_job("b", "", "job-1".to_string(), "second").unwrap_err(),
        EslError::CorrelationFailure
    );
    assert_eq!(session.job_len(), 1);
    expect_job(session.dispatch(job_result("job-1", "r")), 0, "first", "r");
    let again = session.bgapi_with_job("b", "", "job-1".to_string(), "third").unwrap();
    assert_eq!(again.ticket, 1);
}

#[test]
fn fresh_identifiers_are_hyphenated_and_differ() {
    let mut session = handle();
    let one = session.bgapi("status", "", "a").unwrap();
    let two = session.bgapi("status", "now", "b").unwrap();
    assert_eq!(one.uuid.len(), 36);
    assert_eq!(two.uuid.len(), 36);
    assert_ne!(one.uuid, two.uuid);
    assert_eq!(one.uuid.matches('-').count(), 4);
    assert_eq!(one.command, format!("bgapi status\nJob-UUID: {}", one.uuid));
    assert_eq!(two.command, format!("bgapi status now\nJob-UUID: {}", two.uuid));
    assert_eq!(session.job_len(), 2);
    let uuid = one.uuid.clone();
    expect_job(session.dispatch(job_result(&uuid, "r")), one.ticket, "a", "r");
    let run = session.execute("playback", "a.wav", "call-1", "c").unwrap();
    assert_eq!(run.uuid.len(), 36);
    assert_eq!(
        run.command,
        format!(
            "sendmsg call-1\nexecute-app-name: playback\nexecute-app-arg: a.wav\ncall-command: execute\nEvent-UUID: {}",
            run.uuid
        )
    );
    assert_eq!(session.pending_len(), 1);
}

#[test]
fn receive_registers_a_wait_with_its_bound() {
    let mut session = handle();
    let forever = session.receive("a", 0).unwrap();
    assert_eq!(forever.ticket, 0);
    assert_eq!(forever.bound, None);
    let bounded = session.receive("b", 250).unwrap();
    assert_eq!(bounded.ticket, 1);
    assert_eq!(bounded.bound, Some(250));
    assert_eq!(session.pending_len(), 2);
    expect_reply(session.dispatch(reply("one")), 0, "a", "one");
    expect_reply(session.dispatch(reply("two")), 1, "b", "two");
}

#[test]
fn timeouts_leave_no_stale_waiter() {
    let mut session = handle();
    for n in 0..5u64 {
        let wait = session.receive("stale", 10).unwrap();
        assert_eq!(wait.ticket, n);
        assert_eq!(session.expire(wait.ticket), Some(("stale", EslError::Timeout)));
        assert_eq!(session.pending_len(), 0);
    }
    let real = session.api("status", "", "real").unwrap();
    assert_eq!(real.ticket, 5);
    expect_reply(session.dispatch(reply("ok")), 5, "real", "ok");
    assert_eq!(session.pending_len(), 0);
}

#[test]
fn expire_removes_only_the_named_waiter() {
    let mut session = handle();
    session.api("one", "", "a").unwrap();
    session.api("two", "", "b").unwrap();
    session.bgapi_with_job("x", "", "job-1".to_string(), "j1").unwrap();
    session.api("three", "", "c").unwrap();
    session.bgapi_with_job("y", "", "job-2".to_string(), "j2").unwrap();
    assert_eq!(session.expire(1), Some(("b", EslError::Timeout)));
    assert_eq!(session.expire(1), None);
    assert_eq!(session.expire(2), Some(("j1", EslError::Timeout)));
    assert_eq!(session.expire(2), None);
    assert_eq!(session.expire(77), None);
    assert_eq!(session.pending_len(), 2);
    assert_eq!(session.job_len(), 1);
    expect_reply(session.dispatch(reply("r1")), 0, "a", "r1");
    assert!(matches!(
        session.dispatch(job_result("job-1", "late")),
        Routed::Skipped { error: EslError::UnknownJobId(_) }
    ));
    expect_reply(session.dispatch(reply("r3")), 3, "c", "r3");
    expect_job(session.dispatch(job_result("job-2", "r")), 4, "j2", "r");
    assert_eq!(session.expire(0), None);
}

#[test]
fn expire_after_close_finds_nobody() {
    let mut session = handle();
    let wait = session.receive("a", 10).unwrap();
    session.dispatch(None);
    assert_eq!(session.expire(wait.ticket), None);
}

#[test]
fn auth_reply_decides_authentication() {
    let mut session = handle();
    let mut refused = Event::new();
    refused.add_header("Content-Type", "command/reply");
    refused.add_header("Reply-Text", "-ERR invalid");
    assert_eq!(
        session.confirm_auth(&refused),
        Err(EslError::AccessDenied("-ERR invalid".to_string()))
    );
    assert!(!session.is_authenticated());
    let mut accepted = Event::new();
    accepted.add_header("Reply-Text", "+OK accepted");
    assert_eq!(session.confirm_auth(&accepted), Ok(()));
    assert!(session.is_authenticated());
    assert_eq!(
        session.confirm_auth(&refused),
        Err(EslError::AccessDenied("-ERR invalid".to_string()))
    );
    assert!(session.is_authenticated());
    let mut other: EslHandle<&'static str> = EslHandle::inbound("h", "u", "p");
    assert_eq!(other.confirm_auth(&Event::new()), Ok(()));
    assert!(other.is_authenticated());
}

#[test]
fn a_disconnect_notice_on_the_wire_ends_the_session() {
    let mut codec = fs_esl::codec::EslCodec::new();
    let mut buf = bytes::BytesMut::from(
        &b"Content-Type: text/disconnect-notice\nContent-Length: 23\n\nDisconnected, goodbye.\n"[..],
    );
    let mut session = handle();
    session.api("status", "", "sync").unwrap();
    session.bgapi_with_job("reloadxml", "", "job-1".to_string(), "job").unwrap();
    let incoming = match codec.decode(&mut buf) {
        Ok(None) => panic!("the frame is whole"),
        Ok(Some(event)) => Some(Ok(event)),
        Err(error) => Some(Err(error)),
    };
    match session.dispatch(incoming) {
        Routed::Closed { waiters, error } => {
            assert_eq!(error, EslError::AccessDenied("Disconnected, goodbye.\n".to_string()));
            assert_eq!(waiters.len(), 2);
            assert_eq!(waiters[0].slot, "sync");
            assert_eq!(waiters[1].slot, "job");
        }
        other => panic!("unexpected {:?}", other),
    }
    assert!(session.is_closed());
    assert_eq!(buf.len(), 0);
}

#[test]
fn decoded_frames_reach_their_callers() {
    let mut codec = fs_esl::codec::EslCodec::new();
    let mut session = handle();
    let sync = session.api("status", "", "sync").unwrap();
    let job = session.bgapi_with_job("reloadxml", "", "7f4d".to_string(), "job").unwrap();
    let mut out = bytes::BytesMut::new();
    codec.encode(sync.command, &mut out).unwrap();
    codec.encode(job.command, &mut out).unwrap();
    assert_eq!(&out[..], b"api status \n\nbgapi reloadxml\nJob-UUID: 7f4d\n\n");

    let mut inbound = bytes::BytesMut::new();
    inbound.extend_from_slice(b"Content-Type: text/event-plain\nContent-Length: 65\n\n");
    inbound.extend_from_slice(b"Event-Name: BACKGROUND_JOB\nJob-UUID: 7f4d\nContent-Length: 4\n\n+OK\n");
    inbound.extend_from_slice(b"Content-Length: 3\n\nUP\n");
    let first = codec.decode(&mut inbound).unwrap();
    expect_job(session.dispatch(first.map(Ok)), job.ticket, "job", "+OK\n");
    let second = codec.decode(&mut inbound).unwrap();
    match session.dispatch(second.map(Ok)) {
        Routed::Reply { waiter, event } => {
            assert_eq!(waiter.ticket, sync.ticket);
            assert_eq!(waiter.slot, "sync");
            assert_eq!(event.get_body(), "UP\n");
        }
        other => panic!("unexpected {:?}", other),
    }
    assert_eq!(inbound.len(), 0);
    assert_eq!(session.pending_len(), 0);
    assert_eq!(session.job_len(), 0);
}

#[test]
fn the_dispatch_loop_drains_the_inbox_until_the_session_ends() {
    let mut session = handle();
    session.api("one", "", "a").unwrap();
    session.bgapi_with_job("x", "", "job-1".to_string(), "j").unwrap();
    session.api("two", "", "b").unwrap();
    session.api("three", "", "c").unwrap();
    let mut inbox = VecDeque::new();
    inbox.push_back(reply("r1"));
    inbox.push_back(Some(Err(EslError::MalformedPayload)));
    inbox.push_back(job_result("job-1", "done"));
    inbox.push_back(reply("r2"));
    inbox.push_back(None);
    inbox.push_back(reply("late"));
    let mut routed = session.start_events_listen(&mut inbox);
    assert_eq!(routed.len(), 5);
    assert_eq!(inbox.len(), 1);
    assert!(session.is_closed());
    match routed.pop().unwrap() {
        Routed::Closed { waiters, error } => {
            assert_eq!(error, EslError::TransportError);
            assert_eq!(waiters.len(), 1);
            assert_eq!(waiters[0].slot, "c");
            assert_eq!(waiters[0].ticket, 3);
        }
        other => panic!("unexpected {:?}", other),
    }
    expect_reply(routed.pop().unwrap(), 2, "b", "r2");
    expect_job(routed.pop().unwrap(), 1, "j", "done");
    assert!(matches!(
        routed.pop().unwrap(),
        Routed::Skipped { error: EslError::MalformedPayload }
    ));
    expect_reply(routed.pop().unwrap(), 0, "a", "r1");
}

#[test]
fn the_dispatch_loop_takes_everything_while_the_session_lives() {
    let mut session = handle();
    session.api("one", "", "a").unwrap();
    let mut inbox = VecDeque::new();
    inbox.push_back(reply("r1"));
    inbox.push_back(reply("event"));
    let routed = session.start_events_listen(&mut inbox);
    assert_eq!(routed.len(), 2);
    assert!(inbox.is_empty());
    assert!(!session.is_closed());
    assert!(matches!(routed[0], Routed::Reply { .. }));
    assert!(matches!(routed[1], Routed::Unsolicited { .. }));
    assert!(session.start_events_listen(&mut inbox).is_empty());
}
