use vstd::prelude::*;

use crate::error::ProtoErrorKind;
use crate::framing::{accept_datagram, deframe_stream, frame_stream, length_prefix, StreamFrame};
use crate::message::{be16, encode, message_wf, parse_message, plain_len, Header, Message, MessageView};
use crate::framing::MAX_FRAME_LEN;
use crate::transaction::{answers, has_id, PendingQuery, PendingView, TransactionTable};

verus! {

/// The kind of transport under a multiplexer.
#[derive(Clone, Copy, Debug, PartialEq, Eq, Structural)]
pub enum TransportKind {
    /// Ordered and reliable: every message carries a 2-byte length prefix.
    Stream,
    /// Boundary-preserving: one datagram is one message.
    Datagram,
}

/// `Active` until the connection ends; `Closed` is terminal.
#[derive(Clone, Copy, Debug, PartialEq, Eq, Structural)]
pub enum MuxState {
    Active,
    Closed,
}

/// What became of one inbound message.
pub enum Inbound {
    /// It answered this pending query, which is no longer pending.
    Delivered(PendingQuery, Message),
    /// It decoded but answered no pending query; it is discarded.
    Unmatched,
    /// It did not decode; it is discarded and the connection goes on.
    Dropped,
}

/// What the read side of a stream does with its buffer.
pub enum StreamEvent {
    /// No complete frame yet.
    NeedMore,
    /// One frame was consumed, this many bytes long.
    Frame(Inbound, usize),
    /// The stream is unusable: the multiplexer is now closed, and these
    /// pending queries were resolved.
    Fatal(ProtoErrorKind, Vec<(u16, ProtoErrorKind)>),
}

/// The deadline of a query sent at `now`: `now + timeout`, saturating.
pub open spec fn deadline_of(now: u64, timeout: u64) -> u64 {
    if now as int + timeout as int > u64::MAX { u64::MAX } else { (now + timeout) as u64 }
}

/// `m` with its transaction ID replaced.
pub open spec fn stamped(m: MessageView, id: u16) -> MessageView {
    MessageView { header: Header { id, ..m.header }, ..m }
}

/// One connection's queries: its state, its transport kind, the table of
/// outstanding transactions and the time each query is given.
pub struct Multiplexer {
    kind: TransportKind,
    state: MuxState,
    table: TransactionTable,
    timeout: u64,
}

impl Multiplexer {
    pub closed spec fn spec_kind(&self) -> TransportKind {
        self.kind
    }

    pub closed spec fn spec_state(&self) -> MuxState {
        self.state
    }

    pub closed spec fn spec_timeout(&self) -> u64 {
        self.timeout
    }

    /// The outstanding queries.
    pub closed spec fn spec_pending(&self) -> Seq<PendingView> {
        self.table@
    }

    /// The table is well formed, and a closed multiplexer has nothing pending.
    pub closed spec fn wf(&self) -> bool {
        &&& self.table.wf()
        &&& self.state == MuxState::Closed ==> self.table@.len() == 0
    }

    /// A well-formed multiplexer holds each pending ID at most once.
    pub proof fn lemma_pending_ids_unique(&self)
        requires
            self.wf(),
        ensures
            crate::transaction::ids_unique(self.spec_pending()),
    {
        self.table.lemma_wf_ids_unique();
    }

    pub fn new(kind: TransportKind, timeout: u64) -> (r: Multiplexer)
        ensures
            r.wf(),
            r.spec_kind() == kind,
            r.spec_state() == MuxState::Active,
            r.spec_timeout() == timeout,
            r.spec_pending() == Seq::<PendingView>::empty(),
    {
        Multiplexer { kind, state: MuxState::Active, table: TransactionTable::new(), timeout }
    }

    pub fn state(&self) -> (r: MuxState)
        ensures
            r == self.spec_state(),
    {
        self.state
    }

    pub fn pending_count(&self) -> (r: usize)
        ensures
            r == self.spec_pending().len(),
    {
        self.table.len()
    }

    /// Sends a query of exactly one question (a query of several questions is
    /// refused with `MessageFormat`: servers answer one question per message,
    /// so the table keeps one question per entry): picks a free ID (probing from
    /// `candidate`, avoiding `avoid`), stamps the query with it, encodes and
    /// frames it, and registers it as pending with a deadline of
    /// `now + timeout`. Returns the ID and the bytes to write.
    pub fn send(&mut self, query: Message, candidate: u16, avoid: &Vec<u16>, now: u64) -> (r: Result<
        (u16, Vec<u8>),
        ProtoErrorKind,
    >)
        requires
            old(self).wf(),
            message_wf(query@),
        ensures
            final(self).wf(),
            final(self).spec_state() == old(self).spec_state(),
            final(self).spec_kind() == old(self).spec_kind(),
            final(self).spec_timeout() == old(self).spec_timeout(),
            r is Err ==> final(self).spec_pending() == old(self).spec_pending(),
            old(self).spec_state() == MuxState::Closed ==> r == Err::<(u16, Vec<u8>), ProtoErrorKind>(
                ProtoErrorKind::ConnectionClosed,
            ),
            old(self).spec_state() == MuxState::Active && query@.queries.len() != 1 ==> r == Err::<
                (u16, Vec<u8>),
                ProtoErrorKind,
            >(ProtoErrorKind::MessageFormat),
            r == Err::<(u16, Vec<u8>), ProtoErrorKind>(ProtoErrorKind::Exhausted) ==> forall|id: u16|
                has_id(old(self).spec_pending(), id) || avoid@.contains(id),
            r == Err::<(u16, Vec<u8>), ProtoErrorKind>(ProtoErrorKind::MessageFormat) ==> query@.queries.len()
                != 1 || (old(self).spec_kind() == TransportKind::Stream && plain_len(query@) > MAX_FRAME_LEN),
            old(self).spec_state() == MuxState::Active && query@.queries.len() == 1 && (old(self).spec_kind()
                == TransportKind::Datagram || plain_len(query@) <= MAX_FRAME_LEN) && (exists|id: u16|
                !has_id(old(self).spec_pending(), id) && !avoid@.contains(id)) ==> r is Ok,
            r matches Ok((id, bytes)) ==> {
                &&& !has_id(old(self).spec_pending(), id)
                &&& !avoid@.contains(id)
                &&& final(self).spec_pending() == old(self).spec_pending().push(
                    PendingView {
                        id,
                        question: query@.queries[0],
                        deadline: deadline_of(now, old(self).spec_timeout()),
                        attempts: 1,
                    },
                )
                &&& old(self).spec_kind() == TransportKind::Datagram ==> parse_message(bytes@) == Ok::<
                    MessageView,
                    ProtoErrorKind,
                >(stamped(query@, id))
                &&& old(self).spec_kind() == TransportKind::Stream ==> {
                    &&& bytes@.len() >= 2
                    &&& bytes@.subrange(0, 2) == length_prefix((bytes@.len() - 2) as nat)
                    &&& parse_message(bytes@.subrange(2, bytes@.len() as int)) == Ok::<
                        MessageView,
                        ProtoErrorKind,
                    >(stamped(query@, id))
                }
            },
    {
        if self.state == MuxState::Closed {
            return Err(ProtoErrorKind::ConnectionClosed);
        }
        if query.queries.len() != 1 {
            return Err(ProtoErrorKind::MessageFormat);
        }
        let id = match self.table.allocate(candidate, avoid) {
            Ok(id) => id,
            Err(k) => {
                return Err(k);
            },
        };
        let ghost q0 = query@;
        let mut query = query;
        query.header.id = id;
        assert(query@ == stamped(q0, id));
        let payload = encode(&query);
        assert(plain_len(query@) == plain_len(q0));
        let bytes = match self.kind {
            TransportKind::Datagram => payload,
            TransportKind::Stream => match frame_stream(&payload) {
                Ok(framed) => {
                    assert(framed@.subrange(2, framed@.len() as int) =~= payload@);
                    assert(framed@.subrange(0, 2) =~= length_prefix(payload@.len()));
                    framed
                },
                Err(k) => {
                    return Err(k);
                },
            },
        };
        let deadline = if now > u64::MAX - self.timeout { u64::MAX } else { now + self.timeout };
        let question = query.queries[0].clone();
        proof {
            assert(query@.queries[0] == query.queries@[0]@);
        }
        self.table.register(PendingQuery { id, question, deadline, attempts: 1 });
        Ok((id, bytes))
    }

    fn deliver(&mut self, m: Message) -> (r: Inbound)
        requires
            old(self).wf(),
            old(self).spec_state() == MuxState::Active,
        ensures
            final(self).wf(),
            final(self).spec_state() == old(self).spec_state(),
            final(self).spec_kind() == old(self).spec_kind(),
            final(self).spec_timeout() == old(self).spec_timeout(),
            forall|i: int|
                0 <= i < old(self).spec_pending().len() && answers(
                    m.header.id,
                    m@.queries,
                    #[trigger] old(self).spec_pending()[i],
                ) ==> {
                    &&& r matches Inbound::Delivered(p, x) && p@ == old(self).spec_pending()[i] && x@ == m@
                    &&& final(self).spec_pending() == old(self).spec_pending().remove(i)
                },
            (forall|i: int|
                0 <= i < old(self).spec_pending().len() ==> !answers(
                    m.header.id,
                    m@.queries,
                    #[trigger] old(self).spec_pending()[i],
                )) ==> r is Unmatched && final(self).spec_pending() == old(self).spec_pending(),
    {
        let ghost t0 = self.table@;
        let found = self.table.match_response(&m);
        assert(old(self).spec_pending() == t0);
        match found {
            Some(p) => Inbound::Delivered(p, m),
            None => Inbound::Unmatched,
        }
    }

    /// Handles one inbound datagram. One that does not decode is dropped and
    /// the connection stays as it is; one that decodes is matched against the
    /// pending queries. A closed multiplexer drops everything.
    pub fn on_datagram(&mut self, bytes: &[u8]) -> (r: Inbound)
        requires
            old(self).wf(),
        ensures
            final(self).wf(),
            final(self).spec_state() == old(self).spec_state(),
            final(self).spec_kind() == old(self).spec_kind(),
            final(self).spec_timeout() == old(self).spec_timeout(),
            (old(self).spec_state() == MuxState::Closed || parse_message(bytes@) is Err) ==> r is Dropped
                && final(self).spec_pending() == old(self).spec_pending(),
            old(self).spec_state() == MuxState::Active ==> match parse_message(bytes@) {
                Ok(v) => {
                    &&& forall|i: int|
                        0 <= i < old(self).spec_pending().len() && answers(
                            v.header.id,
                            v.queries,
                            #[trigger] old(self).spec_pending()[i],
                        ) ==> {
                            &&& r matches Inbound::Delivered(p, x) && p@ == old(self).spec_pending()[i] && x@ == v
                            &&& final(self).spec_pending() == old(self).spec_pending().remove(i)
                        }
                    &&& (forall|i: int|
                        0 <= i < old(self).spec_pending().len() ==> !answers(
                            v.header.id,
                            v.queries,
                            #[trigger] old(self).spec_pending()[i],
                        )) ==> r is Unmatched && final(self).spec_pending() == old(self).spec_pending()
                },
                Err(_) => true,
            },
    {
        if self.state == MuxState::Closed {
            return Inbound::Dropped;
        }
        match accept_datagram(bytes) {
            None => Inbound::Dropped,
            Some(m) => self.deliver(m),
        }
    }

    /// Looks at the front of a stream's read buffer. A complete frame is
    /// decoded and matched. A framing or decoding failure, a zero length
    /// prefix included, is fatal to the connection, since a stream has no later
    /// offset from which reading could safely resume: the multiplexer closes and
    /// every pending query is resolved with `ConnectionClosed`. The failure
    /// itself is returned for the caller's read loop to report.
    pub fn on_stream(&mut self, buf: &[u8]) -> (r: StreamEvent)
        requires
            old(self).wf(),
            old(self).spec_state() == MuxState::Active,
        ensures
            final(self).wf(),
            final(self).spec_kind() == old(self).spec_kind(),
            final(self).spec_timeout() == old(self).spec_timeout(),
            r is NeedMore ==> final(self).spec_pending() == old(self).spec_pending()
                && final(self).spec_state() == MuxState::Active,
            r is Frame ==> final(self).spec_state() == MuxState::Active,
            r matches StreamEvent::Fatal(k, drained) ==> {
                &&& final(self).spec_state() == MuxState::Closed
                &&& final(self).spec_pending().len() == 0
                &&& drained@ == old(self).spec_pending().map_values(
                    |p: PendingView| (p.id, ProtoErrorKind::ConnectionClosed),
                )
            },
            buf@.len() < 2 ==> r is NeedMore,
            buf@.len() >= 2 && be16(buf@, 0) == 0 ==> r matches StreamEvent::Fatal(
                ProtoErrorKind::Truncated,
                _,
            ),
            buf@.len() >= 2 && be16(buf@, 0) > 0 && buf@.len() < 2 + be16(buf@, 0) ==> r is NeedMore,
            buf@.len() >= 2 && be16(buf@, 0) > 0 && buf@.len() >= 2 + be16(buf@, 0) ==> match parse_message(
                buf@.subrange(2, 2 + be16(buf@, 0)),
            ) {
                Ok(v) => {
                    &&& r is Frame && r->Frame_1 == 2 + be16(buf@, 0)
                    &&& forall|i: int|
                        0 <= i < old(self).spec_pending().len() && answers(
                            v.header.id,
                            v.queries,
                            #[trigger] old(self).spec_pending()[i],
                        ) ==> {
                            &&& r->Frame_0 matches Inbound::Delivered(p, x) && p@ == old(self).spec_pending()[i]
                                && x@ == v
                            &&& final(self).spec_pending() == old(self).spec_pending().remove(i)
                        }
                    &&& (forall|i: int|
                        0 <= i < old(self).spec_pending().len() ==> !answers(
                            v.header.id,
                            v.queries,
                            #[trigger] old(self).spec_pending()[i],
                        )) ==> r->Frame_0 is Unmatched && final(self).spec_pending() == old(
                        self,
                    ).spec_pending()
                },
                Err(_) => r matches StreamEvent::Fatal(ProtoErrorKind::MessageFormat, _),
            },
    {
        match deframe_stream(buf) {
            Ok(StreamFrame::NeedMore) => StreamEvent::NeedMore,
            Ok(StreamFrame::Frame(m, n)) => {
                let inbound = self.deliver(m);
                StreamEvent::Frame(inbound, n)
            },
            Err(k) => {
                let drained = self.close(ProtoErrorKind::ConnectionClosed);
                StreamEvent::Fatal(k, drained)
            },
        }
    }

    /// The connection ended: the multiplexer closes for good and every
    /// pending query is resolved with `reason`.
    pub fn close(&mut self, reason: ProtoErrorKind) -> (r: Vec<(u16, ProtoErrorKind)>)
        requires
            old(self).wf(),
        ensures
            final(self).wf(),
            final(self).spec_state() == MuxState::Closed,
            final(self).spec_kind() == old(self).spec_kind(),
            final(self).spec_timeout() == old(self).spec_timeout(),
            final(self).spec_pending() == Seq::<PendingView>::empty(),
            r@ == old(self).spec_pending().map_values(|p: PendingView| (p.id, reason)),
    {
        self.state = MuxState::Closed;
        self.table.drain_all(reason)
    }

    /// Resolves the query with this ID with `Timeout` if its deadline is at
    /// or before `now`.
    pub fn expire(&mut self, id: u16, now: u64) -> (r: Option<(u16, ProtoErrorKind)>)
        requires
            old(self).wf(),
        ensures
            final(self).wf(),
            final(self).spec_state() == old(self).spec_state(),
            final(self).spec_kind() == old(self).spec_kind(),
            final(self).spec_timeout() == old(self).spec_timeout(),
            forall|i: int|
                0 <= i < old(self).spec_pending().len() && (#[trigger] old(self).spec_pending()[i]).id == id
                    ==> if old(self).spec_pending()[i].deadline <= now {
                    &&& r == Some((id, ProtoErrorKind::Timeout))
                    &&& final(self).spec_pending() == old(self).spec_pending().remove(i)
                } else {
                    r is None && final(self).spec_pending() == old(self).spec_pending()
                },
            !has_id(old(self).spec_pending(), id) ==> r is None && final(self).spec_pending() == old(
                self,
            ).spec_pending(),
            r is Some ==> !has_id(final(self).spec_pending(), id),
    {
        self.table.expire(id, now)
    }

    /// Forgets the query with this ID because its caller gave up on it.
    pub fn cancel(&mut self, id: u16) -> (r: bool)
        requires
            old(self).wf(),
        ensures
            final(self).wf(),
            final(self).spec_state() == old(self).spec_state(),
            final(self).spec_kind() == old(self).spec_kind(),
            final(self).spec_timeout() == old(self).spec_timeout(),
            r == has_id(old(self).spec_pending(), id),
            forall|i: int|
                0 <= i < old(self).spec_pending().len() && (#[trigger] old(self).spec_pending()[i]).id == id
                    ==> final(self).spec_pending() == old(self).spec_pending().remove(i),
            !r ==> final(self).spec_pending() == old(self).spec_pending(),
    {
        self.table.cancel(id).is_some()
    }

    /// The IDs of the queries whose deadline is at or before `now`.
    pub fn due_ids(&self, now: u64) -> (r: Vec<u16>)
        ensures
            forall|i: int|
                0 <= i < r@.len() ==> crate::transaction::due_with_id(self.spec_pending(), #[trigger] r@[i], now),
            forall|k: int|
                0 <= k < self.spec_pending().len() && (#[trigger] self.spec_pending()[k]).deadline <= now
                    ==> r@.contains(self.spec_pending()[k].id),
    {
        self.table.due_ids(now)
    }
}

} // verus!
