//! The session as a value: who waits for what, and what each incoming
//! message does to that. The handle in `esl` keeps this value and follows
//! these functions step by step.

use vstd::prelude::*;
use crate::error::EslErrorView;
use crate::event::EventView;
use crate::event::JOB_UUID;
use crate::text::first_where;
use crate::text::lemma_first_where;
use crate::text::lemma_first_where_is;

verus! {

/// A caller that waits for a message. The ticket names the caller for as
/// long as the session lives; the slot is what the message is handed to.
#[derive(Debug)]
pub struct Waiter<S> {
    pub ticket: u64,
    pub slot: S,
}

/// A caller that waits for the result of a background job.
#[verifier::ext_equal]
pub struct JobView<S> {
    pub job: Seq<char>,
    pub ticket: u64,
    pub slot: S,
}

impl<S> JobView<S> {
    /// The caller without the job's name.
    pub open spec fn waiter(self) -> Waiter<S> {
        Waiter { ticket: self.ticket, slot: self.slot }
    }
}

/// What the reader of the transport hands over: a message, a failure, or
/// `None` when the peer has closed the stream.
pub type Incoming = Option<Result<EventView, EslErrorView>>;

/// What is to be done with one thing that came in.
#[verifier::ext_equal]
pub enum RoutedView<S> {
    /// The caller at the head of the queue gets the message.
    Reply { waiter: Waiter<S>, event: EventView },
    /// The caller that waits for the message's job gets it.
    JobResult { waiter: Waiter<S>, event: EventView },
    /// Nobody waits: the message goes to the event callback.
    Unsolicited { event: EventView },
    /// Nothing is delivered; the error is for the log.
    Skipped { error: EslErrorView },
    /// The session has ended: each of these callers gets the error.
    Closed { waiters: Seq<Waiter<S>>, error: EslErrorView },
}

/// Whether a job waiter waits for the job `job`.
pub open spec fn for_job<S>(job: Seq<char>) -> spec_fn(JobView<S>) -> bool {
    |entry: JobView<S>| entry.job == job
}

/// Whether a waiter holds the ticket `ticket`.
pub open spec fn with_ticket<S>(ticket: u64) -> spec_fn(Waiter<S>) -> bool {
    |waiter: Waiter<S>| waiter.ticket == ticket
}

/// Whether a job waiter holds the ticket `ticket`.
pub open spec fn job_with_ticket<S>(ticket: u64) -> spec_fn(JobView<S>) -> bool {
    |entry: JobView<S>| entry.ticket == ticket
}

/// The callers of a job table, in the table's order.
pub open spec fn job_waiters<S>(jobs: Seq<JobView<S>>) -> Seq<Waiter<S>> {
    Seq::new(jobs.len(), |i: int| jobs[i].waiter())
}

/// The state of a session.
#[verifier::ext_equal]
pub struct SessionView<S> {
    /// Whether the session has ended.
    pub closed: bool,
    /// Whether the peer has accepted the password.
    pub authenticated: bool,
    /// The ticket that the next caller gets.
    pub next_ticket: u64,
    /// The callers that wait for a reply, in the order of their commands.
    pub pending: Seq<Waiter<S>>,
    /// The callers that wait for the result of a background job.
    pub jobs: Seq<JobView<S>>,
}

impl<S> SessionView<S> {
    /// What holds of every session: tickets are below the next ticket and
    /// no two callers share one, no two callers wait for the same job, and
    /// nobody waits on a session that has ended.
    pub open spec fn valid(self) -> bool {
        &&& forall|i: int| 0 <= i < self.pending.len() ==> self.pending[i].ticket < self.next_ticket
        &&& forall|i: int| 0 <= i < self.jobs.len() ==> self.jobs[i].ticket < self.next_ticket
        &&& forall|i: int, j: int|
            0 <= i < j < self.pending.len() ==> self.pending[i].ticket != self.pending[j].ticket
        &&& forall|i: int, j: int|
            0 <= i < j < self.jobs.len() ==> self.jobs[i].ticket != self.jobs[j].ticket
        &&& forall|i: int, j: int|
            0 <= i < self.pending.len() && 0 <= j < self.jobs.len() ==> self.pending[i].ticket
                != self.jobs[j].ticket
        &&& forall|i: int, j: int|
            0 <= i < j < self.jobs.len() ==> self.jobs[i].job != self.jobs[j].job
        &&& self.closed ==> self.pending.len() == 0 && self.jobs.len() == 0
    }

    /// A session that has just been opened.
    pub open spec fn fresh() -> SessionView<S> {
        SessionView {
            closed: false,
            authenticated: false,
            next_ticket: 0,
            pending: Seq::empty(),
            jobs: Seq::empty(),
        }
    }

    /// Whether a new caller can be taken on.
    pub open spec fn accepts(self) -> bool {
        !self.closed && self.next_ticket < u64::MAX
    }

    /// Whether a caller waits for the job `job`.
    pub open spec fn has_job(self, job: Seq<char>) -> bool {
        first_where(self.jobs, for_job(job)) < self.jobs.len()
    }

    /// Whether a caller holds the ticket `ticket`.
    pub open spec fn holds(self, ticket: u64) -> bool {
        first_where(self.pending, with_ticket(ticket)) < self.pending.len() || first_where(
            self.jobs,
            job_with_ticket(ticket),
        ) < self.jobs.len()
    }

    /// The caller that holds `ticket`. Meaningful when one does.
    pub open spec fn holder(self, ticket: u64) -> Waiter<S> {
        let queued = first_where(self.pending, with_ticket(ticket)) as int;
        if queued < self.pending.len() {
            self.pending[queued]
        } else {
            self.jobs[first_where(self.jobs, job_with_ticket(ticket)) as int].waiter()
        }
    }

    /// Every caller that waits: those of the queue in order, then those of
    /// the job table.
    pub open spec fn all_waiters(self) -> Seq<Waiter<S>> {
        self.pending + job_waiters(self.jobs)
    }

    /// The session with one more caller at the tail of the queue.
    pub open spec fn enqueue(self, slot: S) -> SessionView<S> {
        SessionView {
            next_ticket: (self.next_ticket + 1) as u64,
            pending: self.pending.push(Waiter { ticket: self.next_ticket, slot: slot }),
            ..self
        }
    }

    /// The session with one more caller in the job table.
    pub open spec fn register_job(self, job: Seq<char>, slot: S) -> SessionView<S> {
        SessionView {
            next_ticket: (self.next_ticket + 1) as u64,
            jobs: self.jobs.push(JobView { job: job, ticket: self.next_ticket, slot: slot }),
            ..self
        }
    }

    /// The session without the caller that holds `ticket`.
    pub open spec fn without(self, ticket: u64) -> SessionView<S> {
        let queued = first_where(self.pending, with_ticket(ticket)) as int;
        let tabled = first_where(self.jobs, job_with_ticket(ticket)) as int;
        if queued < self.pending.len() {
            SessionView { pending: self.pending.remove(queued), ..self }
        } else if tabled < self.jobs.len() {
            SessionView { jobs: self.jobs.remove(tabled), ..self }
        } else {
            self
        }
    }

    /// The session after it has ended: nobody waits any more.
    pub open spec fn shut(self) -> SessionView<S> {
        SessionView { closed: true, pending: Seq::empty(), jobs: Seq::empty(), ..self }
    }

    /// Where a message goes. A message that names a job goes to the caller
    /// that waits for that job, and is dropped when there is none. Any other
    /// message goes to the head of the queue, or to the event callback when
    /// the queue is empty.
    pub open spec fn route(self, event: EventView) -> (SessionView<S>, RoutedView<S>) {
        if event.header.contains_key(JOB_UUID@) {
            let job = event.header[JOB_UUID@];
            let at = first_where(self.jobs, for_job(job)) as int;
            if at < self.jobs.len() {
                (
                    SessionView { jobs: self.jobs.remove(at), ..self },
                    RoutedView::JobResult { waiter: self.jobs[at].waiter(), event: event },
                )
            } else {
                (self, RoutedView::Skipped { error: EslErrorView::UnknownJobId(job) })
            }
        } else if self.pending.len() > 0 {
            (
                SessionView { pending: self.pending.drop_first(), ..self },
                RoutedView::Reply { waiter: self.pending[0], event: event },
            )
        } else {
            (self, RoutedView::Unsolicited { event: event })
        }
    }

    /// What one thing that came in does to the session. The end of the
    /// stream, a transport error and a denial of access end the session and
    /// fail every caller; any other error is skipped.
    pub open spec fn step(self, incoming: Incoming) -> (SessionView<S>, RoutedView<S>) {
        match incoming {
            None => (
                self.shut(),
                RoutedView::Closed {
                    waiters: self.all_waiters(),
                    error: EslErrorView::TransportError,
                },
            ),
            Some(Err(error)) => if error is TransportError || error is AccessDenied {
                (self.shut(), RoutedView::Closed { waiters: self.all_waiters(), error: error })
            } else {
                (self, RoutedView::Skipped { error: error })
            },
            Some(Ok(event)) => self.route(event),
        }
    }
}

/// A fresh session is valid, and taking on a caller and ending the session
/// keep a session valid.
pub proof fn lemma_valid_is_kept<S>(session: SessionView<S>, slot: S, job: Seq<char>)
    requires
        session.valid(),
    ensures
        SessionView::<S>::fresh().valid(),
        session.accepts() ==> session.enqueue(slot).valid(),
        session.accepts() && !session.has_job(job) ==> session.register_job(job, slot).valid(),
        session.shut().valid(),
{
    lemma_first_where(session.jobs, for_job(job));
    if session.accepts() && !session.has_job(job) {
        let next = session.register_job(job, slot);
        assert forall|i: int, j: int| 0 <= i < j < next.jobs.len() implies next.jobs[i].job
            != next.jobs[j].job by {
            if j == session.jobs.len() {
                assert(!for_job::<S>(job)(session.jobs[i]));
            }
        }
    }
}

/// Giving up a wait keeps a session valid.
pub proof fn lemma_without_keeps_valid<S>(session: SessionView<S>, ticket: u64)
    requires
        session.valid(),
    ensures
        session.without(ticket).valid(),
{
    lemma_first_where(session.pending, with_ticket(ticket));
    lemma_first_where(session.jobs, job_with_ticket(ticket));
}

/// Whatever comes in, a valid session stays valid.
pub proof fn lemma_step_keeps_valid<S>(session: SessionView<S>, incoming: Incoming)
    requires
        session.valid(),
    ensures
        session.step(incoming).0.valid(),
{
    match incoming {
        Some(Ok(event)) => {
            if event.header.contains_key(JOB_UUID@) {
                lemma_first_where(session.jobs, for_job(event.header[JOB_UUID@]));
            }
        },
        _ => {},
    }
}

/// Whether something that came in is a message that names no job.
pub open spec fn is_reply(incoming: Incoming) -> bool {
    incoming matches Some(Ok(event)) && !event.header.contains_key(JOB_UUID@)
}

/// Whether something that came in is a message that names the job `job`.
pub open spec fn names_job(incoming: Incoming, job: Seq<char>) -> bool {
    incoming matches Some(Ok(event)) && event.header.contains_key(JOB_UUID@)
        && event.header[JOB_UUID@] == job
}

/// Whether something that came in ends the session.
pub open spec fn ends_session(incoming: Incoming) -> bool {
    incoming is None || (incoming matches Some(Err(error)) && (error is TransportError || error
        is AccessDenied))
}

/// The things that end the session.
pub open spec fn ending() -> spec_fn(Incoming) -> bool {
    |incoming: Incoming| ends_session(incoming)
}

/// How many of `incoming` are dispatched before the dispatch loop stops:
/// all up to and with the first that ends the session.
pub open spec fn handled(incoming: Seq<Incoming>) -> nat {
    let end = first_where(incoming, ending());
    if end < incoming.len() {
        end + 1
    } else {
        incoming.len()
    }
}

/// The session after the first `count` of `incoming` were dispatched.
pub open spec fn session_after<S>(
    session: SessionView<S>,
    incoming: Seq<Incoming>,
    count: nat,
) -> SessionView<S>
    decreases count,
{
    if count == 0 {
        session
    } else {
        session_after(session, incoming, (count - 1) as nat).step(incoming[count - 1]).0
    }
}

/// What is done with `incoming[at]` when `incoming` is dispatched in order.
pub open spec fn routed_at<S>(session: SessionView<S>, incoming: Seq<Incoming>, at: nat) -> RoutedView<
    S,
> {
    session_after(session, incoming, at).step(incoming[at as int]).1
}

/// How many of the first `count` of `incoming` are messages that name no
/// job.
pub open spec fn replies_before(incoming: Seq<Incoming>, count: nat) -> nat
    decreases count,
{
    if count == 0 {
        0
    } else if is_reply(incoming[count - 1]) {
        replies_before(incoming, (count - 1) as nat) + 1
    } else {
        replies_before(incoming, (count - 1) as nat)
    }
}

/// While the session lives, each message that names no job takes one
/// caller from the head of the queue, and nothing else touches the queue.
proof fn lemma_queue_after<S>(session: SessionView<S>, incoming: Seq<Incoming>, count: nat)
    requires
        count <= incoming.len(),
        forall|i: int| 0 <= i < count ==> !ends_session(incoming[i]),
    ensures
        replies_before(incoming, count) <= session.pending.len() ==> session_after(
            session,
            incoming,
            count,
        ).pending == session.pending.skip(replies_before(incoming, count) as int),
    decreases count,
{
    if count == 0 {
        assert(session.pending.skip(0) =~= session.pending);
    } else {
        let before = (count - 1) as nat;
        lemma_queue_after(session, incoming, before);
        let earlier = session_after(session, incoming, before);
        let done = replies_before(incoming, before) as int;
        if replies_before(incoming, count) <= session.pending.len() {
            if is_reply(incoming[count - 1]) {
                assert(earlier.pending.drop_first() =~= session.pending.skip(done + 1));
            }
        }
    }
}

/// Replies come back in the order of the commands. When `incoming` is
/// dispatched in order and the session does not end, the message at `at`
/// that names no job goes to the caller that stood in the queue at the place
/// given by the number of such messages before it, whatever else came in
/// between.
pub proof fn lemma_replies_in_order<S>(session: SessionView<S>, incoming: Seq<Incoming>, at: nat)
    requires
        at < incoming.len(),
        forall|i: int| 0 <= i < at ==> !ends_session(incoming[i]),
        is_reply(incoming[at as int]),
        replies_before(incoming, at) < session.pending.len(),
    ensures
        routed_at(session, incoming, at) == (RoutedView::Reply {
            waiter: session.pending[replies_before(incoming, at) as int],
            event: incoming[at as int]->0->Ok_0,
        }),
{
    lemma_queue_after(session, incoming, at);
}

/// Taking an unwanted item out of a sequence moves the first wanted item
/// by at most one place and does not change it.
proof fn lemma_first_where_remove<T>(s: Seq<T>, wanted: spec_fn(T) -> bool, gone: int)
    requires
        0 <= gone < s.len(),
        !wanted(s[gone]),
        first_where(s, wanted) < s.len(),
    ensures
        first_where(s.remove(gone), wanted) < s.remove(gone).len(),
        s.remove(gone)[first_where(s.remove(gone), wanted) as int] == s[first_where(
            s,
            wanted,
        ) as int],
{
    lemma_first_where(s, wanted);
    let at = first_where(s, wanted) as int;
    let rest = s.remove(gone);
    let moved = if gone < at {
        at - 1
    } else {
        at
    };
    assert forall|j: int| 0 <= j < moved implies !wanted(#[trigger] rest[j]) by {
        if j < gone {
            assert(rest[j] == s[j]);
        } else {
            assert(rest[j] == s[j + 1]);
        }
    }
    lemma_first_where_is(rest, wanted, moved);
}

/// While the session lives and no message names `job`, the caller that
/// waits for `job` stays in the table.
proof fn lemma_job_after<S>(
    session: SessionView<S>,
    incoming: Seq<Incoming>,
    count: nat,
    job: Seq<char>,
)
    requires
        session.has_job(job),
        count <= incoming.len(),
        forall|i: int| 0 <= i < count ==> !ends_session(incoming[i]) && !names_job(incoming[i], job),
    ensures
        session_after(session, incoming, count).has_job(job),
        session_after(session, incoming, count).jobs[first_where(
            session_after(session, incoming, count).jobs,
            for_job(job),
        ) as int] == session.jobs[first_where(session.jobs, for_job(job)) as int],
    decreases count,
{
    if count > 0 {
        let before = (count - 1) as nat;
        lemma_job_after(session, incoming, before, job);
        let earlier = session_after(session, incoming, before);
        match incoming[count - 1] {
            Some(Ok(event)) => {
                if event.header.contains_key(JOB_UUID@) {
                    let other = event.header[JOB_UUID@];
                    let gone = first_where(earlier.jobs, for_job(other)) as int;
                    lemma_first_where(earlier.jobs, for_job(other));
                    if gone < earlier.jobs.len() {
                        lemma_first_where_remove(earlier.jobs, for_job(job), gone);
                    }
                }
            },
            _ => {},
        }
    }
}

/// The result of a job goes to the caller that waits for that job. When
/// `incoming` is dispatched in order and the session does not end, the first
/// message that names `job` goes to the caller registered for `job`,
/// however many other messages came in before it.
pub proof fn lemma_job_result_finds_its_caller<S>(
    session: SessionView<S>,
    incoming: Seq<Incoming>,
    at: nat,
    job: Seq<char>,
)
    requires
        session.has_job(job),
        at < incoming.len(),
        forall|i: int| 0 <= i < at ==> !ends_session(incoming[i]) && !names_job(incoming[i], job),
        names_job(incoming[at as int], job),
    ensures
        routed_at(session, incoming, at) == (RoutedView::JobResult {
            waiter: session.jobs[first_where(session.jobs, for_job(job)) as int].waiter(),
            event: incoming[at as int]->0->Ok_0,
        }),
{
    lemma_job_after(session, incoming, at, job);
}

/// A message that names a job nobody waits for is dropped: the session
/// stays as it is, and no caller gets anything.
pub proof fn lemma_unknown_job_is_dropped<S>(session: SessionView<S>, event: EventView)
    requires
        event.header.contains_key(JOB_UUID@),
        !session.has_job(event.header[JOB_UUID@]),
    ensures
        session.step(Some(Ok(event))) == (
            session,
            RoutedView::<S>::Skipped { error: EslErrorView::UnknownJobId(event.header[JOB_UUID@]) },
        ),
{
}

/// A denial of access ends the session and fails everybody: each caller of
/// the queue and of the job table is among those handed out with the
/// error, and nobody is left waiting.
pub proof fn lemma_denial_fails_everybody<S>(session: SessionView<S>, notice: Seq<char>)
    ensures
        session.step(Some(Err(EslErrorView::AccessDenied(notice)))) == (
            session.shut(),
            RoutedView::Closed {
                waiters: session.all_waiters(),
                error: EslErrorView::AccessDenied(notice),
            },
        ),
        forall|i: int|
            0 <= i < session.pending.len() ==> session.all_waiters()[i] == session.pending[i],
        forall|i: int|
            0 <= i < session.jobs.len() ==> session.all_waiters()[session.pending.len() + i]
                == session.jobs[i].waiter(),
        session.all_waiters().len() == session.pending.len() + session.jobs.len(),
        session.shut().closed,
        session.shut().all_waiters().len() == 0,
{
}

/// A wait that was given up leaves nothing behind. The session holds the
/// ticket no more, and every other caller keeps its place. A caller that was
/// taken on and then gave up leaves the queue and the job table as they were
/// before, so that the next reply goes to whoever is at the head then.
pub proof fn lemma_expired_caller_leaves_no_trace<S>(
    session: SessionView<S>,
    ticket: u64,
    slot: S,
    job: Seq<char>,
)
    requires
        session.valid(),
    ensures
        !session.without(ticket).holds(ticket),
        !session.holds(ticket) ==> session.without(ticket) == session,
        session.accepts() ==> session.enqueue(slot).without(session.next_ticket).pending
            == session.pending && session.enqueue(slot).without(session.next_ticket).jobs
            == session.jobs,
        session.accepts() ==> session.register_job(job, slot).without(session.next_ticket).pending
            == session.pending && session.register_job(job, slot).without(
            session.next_ticket,
        ).jobs == session.jobs,
{
    let queued = first_where(session.pending, with_ticket(ticket)) as int;
    let tabled = first_where(session.jobs, job_with_ticket(ticket)) as int;
    lemma_first_where(session.pending, with_ticket(ticket));
    lemma_first_where(session.jobs, job_with_ticket(ticket));
    let left = session.without(ticket);
    assert(!left.holds(ticket)) by {
        assert forall|j: int| 0 <= j < left.pending.len() implies !with_ticket::<S>(ticket)(
            #[trigger] left.pending[j],
        ) by {
            if queued < session.pending.len() {
                if j < queued {
                    assert(left.pending[j] == session.pending[j]);
                } else {
                    assert(left.pending[j] == session.pending[j + 1]);
                }
            }
        }
        lemma_first_where_is(left.pending, with_ticket(ticket), left.pending.len() as int);
        assert forall|j: int| 0 <= j < left.jobs.len() implies !job_with_ticket::<S>(ticket)(
            #[trigger] left.jobs[j],
        ) by {
            if queued < session.pending.len() {
                assert(session.pending[queued].ticket != session.jobs[j].ticket);
            } else if tabled < session.jobs.len() {
                if j < tabled {
                    assert(left.jobs[j] == session.jobs[j]);
                } else {
                    assert(left.jobs[j] == session.jobs[j + 1]);
                }
            }
        }
        lemma_first_where_is(left.jobs, job_with_ticket(ticket), left.jobs.len() as int);
    }
    if session.accepts() {
        let next = session.next_ticket;
        let queue = session.enqueue(slot);
        assert forall|j: int| 0 <= j < session.pending.len() implies !with_ticket::<S>(next)(
            #[trigger] queue.pending[j],
        ) by {
            assert(queue.pending[j] == session.pending[j]);
        }
        assert(with_ticket::<S>(next)(queue.pending[session.pending.len() as int]));
        lemma_first_where_is(queue.pending, with_ticket(next), session.pending.len() as int);
        assert(queue.pending.remove(session.pending.len() as int) =~= session.pending);

        let table = session.register_job(job, slot);
        assert forall|j: int| 0 <= j < table.pending.len() implies !with_ticket::<S>(next)(
            #[trigger] table.pending[j],
        ) by {}
        lemma_first_where_is(table.pending, with_ticket(next), table.pending.len() as int);
        assert forall|j: int| 0 <= j < session.jobs.len() implies !job_with_ticket::<S>(next)(
            #[trigger] table.jobs[j],
        ) by {
            assert(table.jobs[j] == session.jobs[j]);
        }
        assert(job_with_ticket::<S>(next)(table.jobs[session.jobs.len() as int]));
        lemma_first_where_is(table.jobs, job_with_ticket(next), session.jobs.len() as int);
        assert(table.jobs.remove(session.jobs.len() as int) =~= session.jobs);
    }
}

} // verus!
