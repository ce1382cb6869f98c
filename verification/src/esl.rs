//! The session handle: commands, pending callers, and the routing of
//! messages.
//!
//! The handle does no I/O. A command is registered here and comes back as
//! the text to write; what the reader of the transport yields is handed to
//! `dispatch`, which says whom to give it to. The caller of this module
//! writes, reads, and completes the slots.

use vstd::prelude::*;
use vstd::string::*;
use std::collections::VecDeque;
use uuid::Uuid;
use crate::error::EslError;
use crate::error::EslErrorView;
use crate::event::Event;
use crate::event::EventView;
use crate::session::ending;
use crate::session::ends_session;
use crate::session::for_job;
use crate::session::handled;
use crate::session::job_waiters;
use crate::session::job_with_ticket;
use crate::session::lemma_step_keeps_valid;
use crate::session::lemma_valid_is_kept;
use crate::session::lemma_without_keeps_valid;
use crate::session::routed_at;
use crate::session::session_after;
use crate::session::with_ticket;
use crate::session::Incoming;
use crate::session::JobView;
use crate::session::RoutedView;
use crate::session::SessionView;
use crate::session::Waiter;
use crate::text::begins_with;
use crate::text::first_where;
use crate::text::lemma_first_where_is;
use crate::text::starts_with;
use crate::text::str_eq;

verus! {

/// The payload format that a subscription asks for.
#[derive(Debug, Clone, Copy, PartialEq, Eq)]
pub enum EslEventType {
    PLAIN,
    XML,
    JSON,
}

/// A caller that waits for the result of a background job.
#[derive(Debug)]
pub struct JobWaiter<S> {
    pub job: String,
    pub ticket: u64,
    pub slot: S,
}

impl<S> View for JobWaiter<S> {
    type V = JobView<S>;

    open spec fn view(&self) -> JobView<S> {
        JobView { job: self.job@, ticket: self.ticket, slot: self.slot }
    }
}

/// The entries of a job table as values.
pub open spec fn job_views<S>(jobs: Seq<JobWaiter<S>>) -> Seq<JobView<S>> {
    Seq::new(jobs.len(), |i: int| jobs[i]@)
}

/// A command that has been registered and is ready to be written.
#[derive(Debug)]
pub struct Request {
    /// The ticket of the caller that waits for the reply.
    pub ticket: u64,
    /// The text to hand to the encoder.
    pub command: String,
}

/// A registered command that carries an identifier made for it.
#[derive(Debug)]
pub struct TaggedRequest {
    /// The ticket of the caller that waits.
    pub ticket: u64,
    /// The text to hand to the encoder.
    pub command: String,
    /// The identifier that the command carries.
    pub uuid: String,
}

/// A registered wait for the next reply.
#[derive(Debug)]
pub struct Wait {
    /// The ticket of the caller that waits.
    pub ticket: u64,
    /// After how long the caller gives up; `None` when it waits for ever.
    pub bound: Option<u64>,
}

/// The text of an `api` command.
pub open spec fn api_text(cmd: Seq<char>, arg: Seq<char>) -> Seq<char> {
    "api "@ + cmd + " "@ + arg
}

/// The text of a `bgapi` command for the job `job`.
pub open spec fn bgapi_text(cmd: Seq<char>, arg: Seq<char>, job: Seq<char>) -> Seq<char> {
    if arg.len() == 0 {
        "bgapi "@ + cmd + "\nJob-UUID: "@ + job
    } else {
        "bgapi "@ + cmd + " "@ + arg + "\nJob-UUID: "@ + job
    }
}

/// The text of the message that runs a dialplan application on a call.
pub open spec fn execute_text(
    app: Seq<char>,
    args: Seq<char>,
    call_uuid: Seq<char>,
    uuid: Seq<char>,
) -> Seq<char> {
    "sendmsg "@ + call_uuid + "\nexecute-app-name: "@ + app + "\nexecute-app-arg: "@ + args
        + "\ncall-command: execute\nEvent-UUID: "@ + uuid
}

/// The word that names a payload format in a subscription.
pub open spec fn format_word(event_type: EslEventType) -> Seq<char> {
    match event_type {
        EslEventType::PLAIN => "plain"@,
        EslEventType::JSON => "json"@,
        EslEventType::XML => "xml"@,
    }
}

/// The names with one blank between each two.
pub open spec fn join_names(names: Seq<&str>) -> Seq<char>
    decreases names.len(),
{
    if names.len() == 0 {
        Seq::empty()
    } else if names.len() == 1 {
        names[0]@
    } else {
        join_names(names.drop_last()) + " "@ + names.last()@
    }
}

/// The text of a subscription.
pub open spec fn subscribe_text(event_type: EslEventType, events: Seq<&str>) -> Seq<char> {
    "event "@ + format_word(event_type) + " "@ + join_names(events)
}

/// The text of the `auth` command: with the user's name when there is one.
pub open spec fn auth_text(user: Seq<char>, password: Seq<char>) -> Seq<char> {
    if user.len() == 0 {
        "auth "@ + password
    } else {
        "auth "@ + user + " "@ + password
    }
}

/// Writes an `api` command.
pub fn api_command(cmd: &str, arg: &str) -> (text: String)
    ensures
        text@ == api_text(cmd@, arg@),
{
    let mut text = String::from_str("api ");
    text.append(cmd);
    text.append(" ");
    text.append(arg);
    text
}

/// Writes a `bgapi` command for the job `job`.
pub fn bgapi_command(cmd: &str, arg: &str, job: &str) -> (text: String)
    ensures
        text@ == bgapi_text(cmd@, arg@, job@),
{
    let mut text = String::from_str("bgapi ");
    text.append(cmd);
    if !arg.is_empty() {
        text.append(" ");
        text.append(arg);
    }
    text.append("\nJob-UUID: ");
    text.append(job);
    text
}

/// Writes the message that runs the application `app` on the call
/// `call_uuid`.
pub fn execute_command(app: &str, args: &str, call_uuid: &str, uuid: &str) -> (text: String)
    ensures
        text@ == execute_text(app@, args@, call_uuid@, uuid@),
{
    let mut text = String::from_str("sendmsg ");
    text.append(call_uuid);
    text.append("\nexecute-app-name: ");
    text.append(app);
    text.append("\nexecute-app-arg: ");
    text.append(args);
    text.append("\ncall-command: execute\nEvent-UUID: ");
    text.append(uuid);
    text
}

/// Writes a subscription to `events` in the format `event_type`.
pub fn subscribe_command(event_type: EslEventType, events: &Vec<&str>) -> (text: String)
    ensures
        text@ == subscribe_text(event_type, events@),
{
    let mut text = String::from_str("event ");
    match event_type {
        EslEventType::PLAIN => text.append("plain"),
        EslEventType::JSON => text.append("json"),
        EslEventType::XML => text.append("xml"),
    }
    text.append(" ");
    let ghost head = text@;
    let mut i: usize = 0;
    while i < events.len()
        invariant
            i <= events.len(),
            head == "event "@ + format_word(event_type) + " "@,
            text@ == head + join_names(events@.take(i as int)),
        decreases events.len() - i,
    {
        proof {
            assert(events@.take(i + 1).drop_last() =~= events@.take(i as int));
            if i == 0 {
                assert(join_names(events@.take(0)) =~= Seq::<char>::empty());
            }
        }
        if i > 0 {
            text.append(" ");
        }
        text.append(events[i]);
        i += 1;
    }
    proof {
        assert(events@.take(events.len() as int) =~= events@);
    }
    text
}

/// Writes the `auth` command.
pub fn auth_command(user: &str, password: &str) -> (text: String)
    ensures
        text@ == auth_text(user@, password@),
{
    let mut text = String::from_str("auth ");
    if !user.is_empty() {
        text.append(user);
        text.append(" ");
    }
    text.append(password);
    text
}

/// Makes a random identifier with `Uuid::new_v4` and writes it in its
/// hyphenated form, which has 36 characters. Which characters they are is up
/// to chance.
#[verifier::external_body]
fn fresh_uuid() -> (id: String)
    ensures
        id@.len() == 36,
{
    Uuid::new_v4().to_string()
}

/// What registering a command that is answered in the order of sending
/// does: on a session that accepts callers, the caller joins the tail of the
/// queue under the next ticket and the command is `text`; on any other
/// session nothing changes and the result is `CorrelationFailure`.
pub open spec fn queued<S>(
    before: SessionView<S>,
    after: SessionView<S>,
    slot: S,
    sent: Result<Request, EslError>,
    text: Seq<char>,
) -> bool {
    match sent {
        Ok(request) => before.accepts() && after == before.enqueue(slot) && request.ticket
            == before.next_ticket && request.command@ == text,
        Err(error) => !before.accepts() && after == before && error@ is CorrelationFailure,
    }
}

/// Who is on the other side and how to log in there.
pub struct Identity {
    pub socket: Seq<char>,
    pub user: Seq<char>,
    pub password: Seq<char>,
}

/// One session with the peer: the callers that wait for a reply, in the
/// order of their commands, and the callers that wait for the result of a
/// background job. `S` is whatever completes a caller's wait.
///
/// The job table is a vector in which no job occurs twice: it is searched
/// by the job's name, and handed out whole when the session ends. Of a hash
/// table keyed by `String` nothing can be proved here.
#[derive(Debug)]
pub struct EslHandle<S> {
    socket: String,
    user: String,
    password: String,
    authenticated: bool,
    closed: bool,
    next_ticket: u64,
    command: VecDeque<Waiter<S>>,
    background_job: Vec<JobWaiter<S>>,
}

impl<S> View for EslHandle<S> {
    type V = SessionView<S>;

    closed spec fn view(&self) -> SessionView<S> {
        SessionView {
            closed: self.closed,
            authenticated: self.authenticated,
            next_ticket: self.next_ticket,
            pending: self.command@,
            jobs: job_views(self.background_job@),
        }
    }
}

impl<S> EslHandle<S> {
    #[verifier::type_invariant]
    spec fn session_is_valid(self) -> bool {
        self@.valid()
    }

    /// The peer's address and the credentials of this session.
    pub closed spec fn identity(&self) -> Identity {
        Identity { socket: self.socket@, user: self.user@, password: self.password@ }
    }

    /// A session with the peer at `socket`, before anything was sent:
    /// running, not authenticated, and with nobody waiting.
    pub fn inbound(socket: &str, user: &str, password: &str) -> (handle: EslHandle<S>)
        ensures
            handle@ == SessionView::<S>::fresh(),
            handle@.valid(),
            handle.identity() == (Identity { socket: socket@, user: user@, password: password@ }),
    {
        EslHandle {
            socket: socket.to_owned(),
            user: user.to_owned(),
            password: password.to_owned(),
            authenticated: false,
            closed: false,
            next_ticket: 0,
            command: VecDeque::new(),
            background_job: Vec::new(),
        }
    }

    /// The peer's address.
    pub fn socket(&self) -> (socket: &str)
        ensures
            socket@ == self.identity().socket,
    {
        self.socket.as_str()
    }

    /// Whether the session has ended.
    pub fn is_closed(&self) -> (closed: bool)
        ensures
            closed == self@.closed,
    {
        self.closed
    }

    /// Whether the peer has accepted the password.
    pub fn is_authenticated(&self) -> (authenticated: bool)
        ensures
            authenticated == self@.authenticated,
    {
        self.authenticated
    }

    /// How many callers wait for a reply.
    pub fn pending_len(&self) -> (count: usize)
        ensures
            count == self@.pending.len(),
    {
        self.command.len()
    }

    /// How many callers wait for the result of a background job.
    pub fn job_len(&self) -> (count: usize)
        ensures
            count == self@.jobs.len(),
    {
        self.background_job.len()
    }

    /// Takes on a caller at the tail of the queue and hands out its ticket.
    fn enqueue(&mut self, slot: S) -> (ticket: Option<u64>)
        ensures
            final(self)@.valid(),
            final(self).identity() == old(self).identity(),
            match ticket {
                Some(ticket) => old(self)@.accepts() && ticket == old(self)@.next_ticket
                    && final(self)@ == old(self)@.enqueue(slot),
                None => !old(self)@.accepts() && final(self)@ == old(self)@,
            },
    {
        proof {
            use_type_invariant(&*self);
        }
        if self.closed || self.next_ticket == u64::MAX {
            return None;
        }
        let ticket: u64 = self.next_ticket;
        proof {
            let ghost next = SessionView { next_ticket: (ticket + 1) as u64, ..self@ };
            assert(next.valid());
        }
        self.next_ticket = ticket + 1;
        let mut queue: VecDeque<Waiter<S>> = VecDeque::new();
        std::mem::swap(&mut queue, &mut self.command);
        queue.push_back(Waiter { ticket: ticket, slot: slot });
        self.command = queue;
        Some(ticket)
    }

    /// Registers a command whose reply comes in the order of sending: the
    /// caller joins the tail of the queue, and the command comes back as the
    /// text to write. Fails with `CorrelationFailure`, and drops the slot,
    /// when the session has ended or has no ticket left.
    pub fn send_recv(&mut self, cmd: String, slot: S) -> (sent: Result<Request, EslError>)
        ensures
            final(self)@.valid(),
            final(self).identity() == old(self).identity(),
            queued(old(self)@, final(self)@, slot, sent, cmd@),
    {
        match self.enqueue(slot) {
            Some(ticket) => Ok(Request { ticket: ticket, command: cmd }),
            None => Err(EslError::CorrelationFailure),
        }
    }

    /// Registers `api <cmd> <arg>`.
    pub fn api(&mut self, cmd: &str, arg: &str, slot: S) -> (sent: Result<Request, EslError>)
        ensures
            final(self)@.valid(),
            final(self).identity() == old(self).identity(),
            queued(old(self)@, final(self)@, slot, sent, api_text(cmd@, arg@)),
    {
        self.send_recv(api_command(cmd, arg), slot)
    }

    /// Registers a subscription to `events`, delivered in the format
    /// `event_type`.
    pub fn subscribe(&mut self, event_type: EslEventType, events: Vec<&str>, slot: S) -> (sent:
        Result<Request, EslError>)
        ensures
            final(self)@.valid(),
            final(self).identity() == old(self).identity(),
            queued(old(self)@, final(self)@, slot, sent, subscribe_text(event_type, events@)),
    {
        self.send_recv(subscribe_command(event_type, &events), slot)
    }

    /// Registers the `auth` command with this session's credentials.
    pub fn auth(&mut self, slot: S) -> (sent: Result<Request, EslError>)
        ensures
            final(self)@.valid(),
            final(self).identity() == old(self).identity(),
            queued(
                old(self)@,
                final(self)@,
                slot,
                sent,
                auth_text(old(self).identity().user, old(self).identity().password),
            ),
    {
        let cmd = auth_command(self.user.as_str(), self.password.as_str());
        self.send_recv(cmd, slot)
    }

    /// Registers the `exit` command.
    pub fn disconnect(&mut self, slot: S) -> (sent: Result<Request, EslError>)
        ensures
            final(self)@.valid(),
            final(self).identity() == old(self).identity(),
            queued(old(self)@, final(self)@, slot, sent, "exit"@),
    {
        self.send_recv(String::from_str("exit"), slot)
    }
}

/// What is to be done with one thing that came in.
#[derive(Debug)]
pub enum Routed<S> {
    /// The caller at the head of the queue gets the message.
    Reply { waiter: Waiter<S>, event: Event },
    /// The caller that waits for the message's job gets it.
    JobResult { waiter: Waiter<S>, event: Event },
    /// Nobody waits: the message goes to the event callback.
    Unsolicited { event: Event },
    /// Nothing is delivered; the error is for the log.
    Skipped { error: EslError },
    /// The session has ended: each of these callers gets the error.
    Closed { waiters: Vec<Waiter<S>>, error: EslError },
}

impl<S> View for Routed<S> {
    type V = RoutedView<S>;

    open spec fn view(&self) -> RoutedView<S> {
        match self {
            Routed::Reply { waiter, event } => RoutedView::Reply { waiter: *waiter, event: event@ },
            Routed::JobResult { waiter, event } => RoutedView::JobResult {
                waiter: *waiter,
                event: event@,
            },
            Routed::Unsolicited { event } => RoutedView::Unsolicited { event: event@ },
            Routed::Skipped { error } => RoutedView::Skipped { error: error@ },
            Routed::Closed { waiters, error } => RoutedView::Closed {
                waiters: waiters@,
                error: error@,
            },
        }
    }
}

/// What the reader of the transport yielded, as a value.
pub open spec fn incoming_view(incoming: Option<Result<Event, EslError>>) -> Incoming {
    match incoming {
        None => None,
        Some(Ok(event)) => Some(Ok(event@)),
        Some(Err(error)) => Some(Err(error@)),
    }
}

/// What the reader of the transport yielded one after the other, as
/// values.
pub open spec fn incoming_views(incoming: Seq<Option<Result<Event, EslError>>>) -> Seq<Incoming> {
    Seq::new(incoming.len(), |i: int| incoming_view(incoming[i]))
}

/// Header in which the peer answers a command.
pub const REPLY_TEXT: &'static str = "Reply-Text";

/// How the answer to a refused command begins.
pub const REFUSAL: &'static str = "-ERR";

/// Whether a reply says that the peer refused the command.
pub open spec fn is_refusal(reply: EventView) -> bool {
    reply.header.contains_key(REPLY_TEXT@) && begins_with(reply.header[REPLY_TEXT@], REFUSAL@)
}

impl<S> EslHandle<S> {
    /// The place of the caller that waits for `job`, or the length of the
    /// table.
    fn job_position(jobs: &Vec<JobWaiter<S>>, job: &str) -> (at: usize)
        ensures
            at == first_where(job_views(jobs@), for_job(job@)),
            at <= jobs.len(),
    {
        let mut i: usize = 0;
        while i < jobs.len()
            invariant
                i <= jobs.len(),
                forall|j: int| 0 <= j < i ==> !for_job::<S>(job@)(#[trigger] job_views(jobs@)[j]),
            decreases jobs.len() - i,
        {
            if str_eq(jobs[i].job.as_str(), job) {
                proof {
                    assert(for_job::<S>(job@)(job_views(jobs@)[i as int]));
                    lemma_first_where_is(job_views(jobs@), for_job(job@), i as int);
                }
                return i;
            }
            i += 1;
        }
        proof {
            lemma_first_where_is(job_views(jobs@), for_job(job@), i as int);
        }
        i
    }

    /// The place in the queue of the caller that holds `ticket`, or the
    /// length of the queue.
    fn queue_position(queue: &VecDeque<Waiter<S>>, ticket: u64) -> (at: usize)
        ensures
            at == first_where(queue@, with_ticket(ticket)),
            at <= queue@.len(),
    {
        let mut i: usize = 0;
        while i < queue.len()
            invariant
                i <= queue@.len(),
                forall|j: int| 0 <= j < i ==> !with_ticket::<S>(ticket)(#[trigger] queue@[j]),
            decreases queue.len() - i,
        {
            if queue[i].ticket == ticket {
                proof {
                    assert(with_ticket::<S>(ticket)(queue@[i as int]));
                    lemma_first_where_is(queue@, with_ticket(ticket), i as int);
                }
                return i;
            }
            i += 1;
        }
        proof {
            lemma_first_where_is(queue@, with_ticket(ticket), i as int);
        }
        i
    }

    /// The place in the job table of the caller that holds `ticket`, or the
    /// length of the table.
    fn ticket_position(jobs: &Vec<JobWaiter<S>>, ticket: u64) -> (at: usize)
        ensures
            at == first_where(job_views(jobs@), job_with_ticket(ticket)),
            at <= jobs@.len(),
    {
        let mut i: usize = 0;
        while i < jobs.len()
            invariant
                i <= jobs@.len(),
                forall|j: int|
                    0 <= j < i ==> !job_with_ticket::<S>(ticket)(#[trigger] job_views(jobs@)[j]),
            decreases jobs.len() - i,
        {
            if jobs[i].ticket == ticket {
                proof {
                    assert(job_with_ticket::<S>(ticket)(job_views(jobs@)[i as int]));
                    lemma_first_where_is(job_views(jobs@), job_with_ticket(ticket), i as int);
                }
                return i;
            }
            i += 1;
        }
        proof {
            lemma_first_where_is(job_views(jobs@), job_with_ticket(ticket), i as int);
        }
        i
    }

    /// Registers `bgapi <cmd> <arg>` under the job identifier `job`: the
    /// caller enters the job table before the command is written, and the
    /// command carries the identifier. Fails with `CorrelationFailure`, and
    /// drops the slot, when the session has ended or has no ticket left, or
    /// when somebody already waits for `job`.
    pub fn bgapi_with_job(&mut self, cmd: &str, arg: &str, job: String, slot: S) -> (sent: Result<
        TaggedRequest,
        EslError,
    >)
        ensures
            final(self)@.valid(),
            final(self).identity() == old(self).identity(),
            match sent {
                Ok(request) => {
                    &&& old(self)@.accepts()
                    &&& !old(self)@.has_job(job@)
                    &&& final(self)@ == old(self)@.register_job(job@, slot)
                    &&& request.ticket == old(self)@.next_ticket
                    &&& request.uuid@ == job@
                    &&& request.command@ == bgapi_text(cmd@, arg@, job@)
                },
                Err(error) => {
                    &&& !(old(self)@.accepts() && !old(self)@.has_job(job@))
                    &&& final(self)@ == old(self)@
                    &&& error@ is CorrelationFailure
                },
            },
    {
        proof {
            use_type_invariant(&*self);
        }
        if self.closed || self.next_ticket == u64::MAX {
            return Err(EslError::CorrelationFailure);
        }
        let at = Self::job_position(&self.background_job, job.as_str());
        if at < self.background_job.len() {
            return Err(EslError::CorrelationFailure);
        }
        let command = bgapi_command(cmd, arg, job.as_str());
        let ticket: u64 = self.next_ticket;
        let uuid = job.clone();
        proof {
            let ghost next = SessionView { next_ticket: (ticket + 1) as u64, ..self@ };
            assert(next.valid());
            lemma_valid_is_kept(self@, slot, job@);
            let ghost entry = JobWaiter { job: job, ticket: ticket, slot: slot };
            assert(job_views(self.background_job@.push(entry)) =~= self@.jobs.push(entry@));
        }
        self.next_ticket = ticket + 1;
        let mut jobs: Vec<JobWaiter<S>> = Vec::new();
        std::mem::swap(&mut jobs, &mut self.background_job);
        jobs.push(JobWaiter { job: job, ticket: ticket, slot: slot });
        self.background_job = jobs;
        Ok(TaggedRequest { ticket: ticket, command: command, uuid: uuid })
    }

    /// Registers `bgapi <cmd> <arg>` under a fresh job identifier. The
    /// result of the job comes as a message with that identifier, so the
    /// caller must have subscribed to the job results before.
    pub fn bgapi(&mut self, cmd: &str, arg: &str, slot: S) -> (sent: Result<TaggedRequest, EslError>)
        ensures
            final(self)@.valid(),
            final(self).identity() == old(self).identity(),
            match sent {
                Ok(request) => {
                    &&& old(self)@.accepts()
                    &&& !old(self)@.has_job(request.uuid@)
                    &&& final(self)@ == old(self)@.register_job(request.uuid@, slot)
                    &&& request.ticket == old(self)@.next_ticket
                    &&& request.command@ == bgapi_text(cmd@, arg@, request.uuid@)
                },
                Err(error) => final(self)@ == old(self)@ && error@ is CorrelationFailure,
            },
            old(self)@.accepts() && old(self)@.jobs.len() == 0 ==> sent is Ok,
    {
        self.bgapi_with_job(cmd, arg, fresh_uuid(), slot)
    }

    /// Registers the message that runs the application `app` with `args`
    /// on the call `call_uuid`, under the event identifier `uuid`. The reply
    /// comes in the order of sending.
    pub fn execute_with_uuid(
        &mut self,
        app: &str,
        args: &str,
        call_uuid: &str,
        uuid: String,
        slot: S,
    ) -> (sent: Result<TaggedRequest, EslError>)
        ensures
            final(self)@.valid(),
            final(self).identity() == old(self).identity(),
            match sent {
                Ok(request) => old(self)@.accepts() && final(self)@ == old(self)@.enqueue(slot)
                    && request.ticket == old(self)@.next_ticket && request.uuid@ == uuid@
                    && request.command@ == execute_text(app@, args@, call_uuid@, uuid@),
                Err(error) => !old(self)@.accepts() && final(self)@ == old(self)@ && error@
                    is CorrelationFailure,
            },
    {
        let command = execute_command(app, args, call_uuid, uuid.as_str());
        match self.enqueue(slot) {
            Some(ticket) => Ok(TaggedRequest { ticket: ticket, command: command, uuid: uuid }),
            None => Err(EslError::CorrelationFailure),
        }
    }

    /// Registers the message that runs the application `app` with `args`
    /// on the call `call_uuid`, under a fresh event identifier.
    pub fn execute(&mut self, app: &str, args: &str, call_uuid: &str, slot: S) -> (sent: Result<
        TaggedRequest,
        EslError,
    >)
        ensures
            final(self)@.valid(),
            final(self).identity() == old(self).identity(),
            match sent {
                Ok(request) => old(self)@.accepts() && final(self)@ == old(self)@.enqueue(slot)
                    && request.ticket == old(self)@.next_ticket && request.command@
                    == execute_text(app@, args@, call_uuid@, request.uuid@),
                Err(error) => !old(self)@.accepts() && final(self)@ == old(self)@ && error@
                    is CorrelationFailure,
            },
    {
        self.execute_with_uuid(app, args, call_uuid, fresh_uuid(), slot)
    }

    /// Registers a wait for the next reply without sending anything. With
    /// `timeout` 0 the caller waits for ever; with any other value it gives
    /// up after that long, and `expire` must then be called with its ticket.
    pub fn receive(&mut self, slot: S, timeout: u64) -> (registered: Result<Wait, EslError>)
        ensures
            final(self)@.valid(),
            final(self).identity() == old(self).identity(),
            match registered {
                Ok(wait) => old(self)@.accepts() && final(self)@ == old(self)@.enqueue(slot)
                    && wait.ticket == old(self)@.next_ticket && wait.bound == (if timeout == 0 {
                    None
                } else {
                    Some(timeout)
                }),
                Err(error) => !old(self)@.accepts() && final(self)@ == old(self)@ && error@
                    is CorrelationFailure,
            },
    {
        let bound: Option<u64> = if timeout == 0 {
            None
        } else {
            Some(timeout)
        };
        match self.enqueue(slot) {
            Some(ticket) => Ok(Wait { ticket: ticket, bound: bound }),
            None => Err(EslError::CorrelationFailure),
        }
    }
}

impl<S> EslHandle<S> {
    /// Ends the session and hands out everybody who waited.
    fn close(&mut self, error: EslError) -> (routed: Routed<S>)
        ensures
            final(self)@.valid(),
            final(self).identity() == old(self).identity(),
            final(self)@ == old(self)@.shut(),
            routed@ == (RoutedView::Closed { waiters: old(self)@.all_waiters(), error: error@ }),
    {
        proof {
            use_type_invariant(&*self);
        }
        let mut queue: VecDeque<Waiter<S>> = VecDeque::new();
        std::mem::swap(&mut queue, &mut self.command);
        let mut jobs: Vec<JobWaiter<S>> = Vec::new();
        std::mem::swap(&mut jobs, &mut self.background_job);
        self.closed = true;
        let ghost queued = queue@;
        let ghost tabled = job_views(jobs@);
        let mut waiters: Vec<Waiter<S>> = Vec::new();
        while queue.len() > 0
            invariant
                waiters@ + queue@ == queued,
            decreases queue.len(),
        {
            match queue.pop_front() {
                Some(waiter) => {
                    waiters.push(waiter);
                },
                None => {},
            }
        }
        proof {
            assert(waiters@ =~= queued);
        }
        while jobs.len() > 0
            invariant
                waiters@.len() >= queued.len(),
                waiters@.subrange(0, queued.len() as int) == queued,
                waiters@.subrange(queued.len() as int, waiters@.len() as int) + job_waiters(
                    job_views(jobs@),
                ) == job_waiters(tabled),
            decreases jobs.len(),
        {
            let entry = jobs.remove(0);
            waiters.push(Waiter { ticket: entry.ticket, slot: entry.slot });
        }
        proof {
            assert(waiters@ =~= queued + job_waiters(tabled));
        }
        Routed::Closed { waiters: waiters, error: error }
    }

    /// Finds the caller for a message.
    fn route(&mut self, event: Event) -> (routed: Routed<S>)
        ensures
            final(self)@.valid(),
            final(self).identity() == old(self).identity(),
            (final(self)@, routed@) == old(self)@.route(event@),
    {
        proof {
            use_type_invariant(&*self);
        }
        let lookup: Option<Result<usize, String>> = match event.job_uuid() {
            None => None,
            Some(job) => {
                let at = Self::job_position(&self.background_job, job);
                if at < self.background_job.len() {
                    Some(Ok(at))
                } else {
                    Some(Err(job.to_owned()))
                }
            },
        };
        match lookup {
            Some(Ok(at)) => {
                proof {
                    lemma_step_keeps_valid(self@, Some(Ok(event@)));
                    assert(job_views(self.background_job@.remove(at as int)) =~= self@.jobs.remove(
                        at as int,
                    ));
                }
                let mut jobs: Vec<JobWaiter<S>> = Vec::new();
                std::mem::swap(&mut jobs, &mut self.background_job);
                let entry = jobs.remove(at);
                self.background_job = jobs;
                Routed::JobResult {
                    waiter: Waiter { ticket: entry.ticket, slot: entry.slot },
                    event: event,
                }
            },
            Some(Err(job)) => Routed::Skipped { error: EslError::UnknownJobId(job) },
            None => {
                proof {
                    lemma_step_keeps_valid(self@, Some(Ok(event@)));
                    if self@.pending.len() > 0 {
                        assert(self@.pending.subrange(1, self@.pending.len() as int)
                            =~= self@.pending.drop_first());
                    }
                }
                let mut queue: VecDeque<Waiter<S>> = VecDeque::new();
                std::mem::swap(&mut queue, &mut self.command);
                let head = queue.pop_front();
                self.command = queue;
                match head {
                    Some(waiter) => Routed::Reply { waiter: waiter, event: event },
                    None => Routed::Unsolicited { event: event },
                }
            },
        }
    }

    /// Decides what to do with what the reader of the transport yielded.
    ///
    /// A message that names a job goes to the caller that waits for that
    /// job; when nobody does, it is dropped and reported as `UnknownJobId`.
    /// Any other message goes to the caller at the head of the queue, or to
    /// the event callback when the queue is empty. The end of the stream, a
    /// transport error and a denial of access end the session: everybody who
    /// waited is handed out together with the error. Any other error is
    /// skipped and the session goes on.
    pub fn dispatch(&mut self, incoming: Option<Result<Event, EslError>>) -> (routed: Routed<S>)
        ensures
            final(self)@.valid(),
            final(self).identity() == old(self).identity(),
            (final(self)@, routed@) == old(self)@.step(incoming_view(incoming)),
    {
        proof {
            use_type_invariant(&*self);
        }
        match incoming {
            None => self.close(EslError::TransportError),
            Some(Err(error)) => {
                if error.is_fatal() {
                    self.close(error)
                } else {
                    Routed::Skipped { error: error }
                }
            },
            Some(Ok(event)) => self.route(event),
        }
    }

    /// Runs the dispatch loop over what has come in: takes one thing after
    /// the other from `incoming` and dispatches it, until nothing is left
    /// or the session has ended. What came in behind the end of the session
    /// stays in `incoming`. The result says, in the same order, what is to be
    /// done with each thing that was taken.
    pub fn start_events_listen(
        &mut self,
        incoming: &mut VecDeque<Option<Result<Event, EslError>>>,
    ) -> (routed: Vec<Routed<S>>)
        ensures
            final(self)@.valid(),
            final(self).identity() == old(self).identity(),
            routed@.len() == handled(incoming_views(old(incoming)@)),
            final(incoming)@ == old(incoming)@.skip(routed@.len() as int),
            final(self)@ == session_after(
                old(self)@,
                incoming_views(old(incoming)@),
                routed@.len() as nat,
            ),
            forall|k: int|
                0 <= k < routed@.len() ==> (#[trigger] routed@[k])@ == routed_at(
                    old(self)@,
                    incoming_views(old(incoming)@),
                    k as nat,
                ),
    {
        proof {
            use_type_invariant(&*self);
        }
        let ghost start = self@;
        let ghost all = incoming_views(incoming@);
        let ghost inbox = incoming@;
        let mut routed: Vec<Routed<S>> = Vec::new();
        proof {
            assert(incoming@.skip(0) =~= incoming@);
        }
        loop
            invariant_except_break
                routed@.len() <= inbox.len(),
                incoming@ == inbox.skip(routed@.len() as int),
                forall|j: int| 0 <= j < routed@.len() ==> !ending()(#[trigger] all[j]),
            invariant
                all == incoming_views(inbox),
                self@.valid(),
                self.identity() == old(self).identity(),
                self@ == session_after(start, all, routed@.len() as nat),
                forall|k: int|
                    0 <= k < routed@.len() ==> (#[trigger] routed@[k])@ == routed_at(
                        start,
                        all,
                        k as nat,
                    ),
            ensures
                routed@.len() == handled(all),
                incoming@ == inbox.skip(routed@.len() as int),
            decreases incoming@.len(),
        {
            let ghost done = routed@.len() as int;
            let ghost before = routed@;
            match incoming.pop_front() {
                None => {
                    proof {
                        lemma_first_where_is(all, ending(), all.len() as int);
                    }
                    break ;
                },
                Some(item) => {
                    proof {
                        assert(inbox.skip(done)[0] == inbox[done]);
                        assert(all[done] == incoming_view(item));
                        assert(inbox.skip(done).subrange(1, inbox.skip(done).len() as int)
                            =~= inbox.skip(done + 1));
                    }
                    let action = self.dispatch(item);
                    let ends = match &action {
                        Routed::Closed { .. } => true,
                        _ => false,
                    };
                    routed.push(action);
                    proof {
                        assert(ends == ends_session(all[done]));
                        assert forall|k: int| 0 <= k < routed@.len() implies (#[trigger] routed@[k])@
                            == routed_at(start, all, k as nat) by {
                            if k < done {
                                assert(routed@[k] == before[k]);
                            }
                        }
                    }
                    if ends {
                        proof {
                            assert(ending()(all[done]));
                            lemma_first_where_is(all, ending(), done);
                        }
                        break ;
                    }
                },
            }
        }
        routed
    }

    /// Gives up the wait of the caller that holds `ticket`, when its bound
    /// has elapsed: the caller leaves the queue or the job table and is
    /// handed out with `Timeout`. When nobody holds the ticket, because the
    /// reply came first or the session has ended, nothing changes.
    pub fn expire(&mut self, ticket: u64) -> (expired: Option<(S, EslError)>)
        ensures
            final(self)@.valid(),
            final(self).identity() == old(self).identity(),
            final(self)@ == old(self)@.without(ticket),
            match expired {
                Some((slot, error)) => old(self)@.holds(ticket) && error@ is Timeout && slot
                    == old(self)@.holder(ticket).slot,
                None => !old(self)@.holds(ticket),
            },
    {
        proof {
            use_type_invariant(&*self);
            lemma_without_keeps_valid(self@, ticket);
        }
        let queued = Self::queue_position(&self.command, ticket);
        if queued < self.command.len() {
            let mut queue: VecDeque<Waiter<S>> = VecDeque::new();
            std::mem::swap(&mut queue, &mut self.command);
            let removed = queue.remove(queued);
            self.command = queue;
            return match removed {
                Some(waiter) => Some((waiter.slot, EslError::Timeout)),
                None => None,
            };
        }
        let tabled = Self::ticket_position(&self.background_job, ticket);
        if tabled < self.background_job.len() {
            proof {
                assert(job_views(self.background_job@.remove(tabled as int)) =~= self@.jobs.remove(
                    tabled as int,
                ));
            }
            let mut jobs: Vec<JobWaiter<S>> = Vec::new();
            std::mem::swap(&mut jobs, &mut self.background_job);
            let entry = jobs.remove(tabled);
            self.background_job = jobs;
            return Some((entry.slot, EslError::Timeout));
        }
        None
    }

    /// Takes note of the peer's answer to the `auth` command. An answer
    /// that begins with `-ERR` fails with `AccessDenied`, which carries the
    /// answer; after any other answer the session is authenticated, and it
    /// stays so.
    pub fn confirm_auth(&mut self, reply: &Event) -> (accepted: Result<(), EslError>)
        ensures
            final(self)@.valid(),
            final(self).identity() == old(self).identity(),
            final(self)@ == (SessionView {
                authenticated: old(self)@.authenticated || !is_refusal(reply@),
                ..old(self)@
            }),
            match accepted {
                Ok(_) => !is_refusal(reply@),
                Err(error) => is_refusal(reply@) && error@ == EslErrorView::AccessDenied(
                    reply@.header[REPLY_TEXT@],
                ),
            },
    {
        proof {
            use_type_invariant(&*self);
        }
        match reply.get_header(REPLY_TEXT) {
            Some(text) => {
                if starts_with(text, REFUSAL) {
                    return Err(EslError::AccessDenied(text.to_owned()));
                }
            },
            None => {},
        }
        proof {
            let ghost next = SessionView { authenticated: true, ..self@ };
            assert(next.valid());
        }
        self.authenticated = true;
        Ok(())
    }
}

} // verus!
