use hickory_proto::error::ProtoErrorKind;
use hickory_proto::framing::{accept_datagram, deframe_stream, finish_stream, frame_stream, StreamFrame};
use hickory_proto::message::{encode, Header, Message, Question};
use hickory_proto::multiplexer::{Inbound, MuxState, Multiplexer, StreamEvent, TransportKind};
use hickory_proto::name::Name;
use hickory_proto::retry::{DelayPolicy, Outcome, RetryAction, RetryPolicy, RetryState};
use hickory_proto::transaction::{PendingQuery, TransactionTable};

fn name(labels: &[&str]) -> Name {
    Name::from_labels(labels.iter().map(|l| l.as_bytes().to_vec()).collect()).unwrap()
}

fn query(n: &[&str], qtype: u16) -> Message {
    Message {
        header: Header {
            id: 0,
            is_response: false,
            op_code: 0,
            authoritative: false,
            truncated: false,
            recursion_desired: true,
            recursion_available: false,
            response_code: 0,
        },
        queries: vec![Question { name: name(n), query_type: qtype, query_class: 1 }],
        answers: vec![],
        name_servers: vec![],
        additionals: vec![],
    }
}

fn response(id: u16, n: &[&str], qtype: u16) -> Message {
    let mut m = query(n, qtype);
    m.header.id = id;
    m.header.is_response = true;
    m
}

#[test]
fn response_resolves_only_its_own_id() {
    let mut mux = Multiplexer::new(TransportKind::Datagram, 1000);
    let (a, _) = mux.send(query(&["example", "com"], 1), 100, &vec![], 0).unwrap();
    let (b, _) = mux.send(query(&["example", "com"], 1), 100, &vec![], 0).unwrap();
    assert_ne!(a, b);
    let bytes = encode(&response(b, &["Example", "COM"], 1));
    match mux.on_datagram(&bytes) {
        Inbound::Delivered(p, m) => {
            assert_eq!(p.id, b);
            assert_eq!(m.header.id, b);
        }
        _ => panic!("response should be delivered"),
    }
    assert_eq!(mux.pending_count(), 1);
    assert!(mux.cancel(a));
    assert_eq!(mux.pending_count(), 0);
}

#[test]
fn spoofed_response_is_discarded() {
    let mut mux = Multiplexer::new(TransportKind::Datagram, 1000);
    let (id, _) = mux.send(query(&["example", "com"], 1), 7, &vec![], 0).unwrap();
    assert_eq!(id, 7);
    let spoof = encode(&response(id, &["evil", "com"], 1));
    assert!(matches!(mux.on_datagram(&spoof), Inbound::Unmatched));
    let wrong_type = encode(&response(id, &["example", "com"], 28));
    assert!(matches!(mux.on_datagram(&wrong_type), Inbound::Unmatched));
    assert_eq!(mux.pending_count(), 1);
    let real = encode(&response(id, &["example", "com"], 1));
    assert!(matches!(mux.on_datagram(&real), Inbound::Delivered(_, _)));
    assert_eq!(mux.pending_count(), 0);
}

#[test]
fn unknown_id_is_unmatched() {
    let mut mux = Multiplexer::new(TransportKind::Datagram, 1000);
    let bytes = encode(&response(42, &["example", "com"], 1));
    assert!(matches!(mux.on_datagram(&bytes), Inbound::Unmatched));
}

#[test]
fn query_times_out_after_its_deadline() {
    let mut mux = Multiplexer::new(TransportKind::Datagram, 50);
    let (id, _) = mux.send(query(&["example", "com"], 1), 9, &vec![], 1000).unwrap();
    assert!(mux.due_ids(1049).is_empty());
    assert_eq!(mux.expire(id, 1049), None);
    assert_eq!(mux.due_ids(1050), vec![id]);
    assert_eq!(mux.expire(id, 1100), Some((id, ProtoErrorKind::Timeout)));
    assert_eq!(mux.pending_count(), 0);
}

#[test]
fn deadline_saturates() {
    let mut t = TransactionTable::new();
    let mut mux = Multiplexer::new(TransportKind::Datagram, u64::MAX);
    let (id, _) = mux.send(query(&["a"], 1), 1, &vec![], 5).unwrap();
    assert!(mux.due_ids(u64::MAX - 1).is_empty());
    assert_eq!(mux.due_ids(u64::MAX), vec![id]);
    t.register(PendingQuery {
        id: 3,
        question: Question { name: name(&["a"]), query_type: 1, query_class: 1 },
        deadline: 10,
        attempts: 1,
    });
    assert_eq!(t.expire(3, 9), None);
    assert_eq!(t.expire(3, 10), Some((3, ProtoErrorKind::Timeout)));
}

#[test]
fn retry_uses_three_distinct_ids_then_returns_timeout() {
    let policy = RetryPolicy { max_attempts: 3, base_delay_ms: 10, delay: DelayPolicy::Fixed, retry_truncated: false };
    let mut mux = Multiplexer::new(TransportKind::Datagram, 50);
    let mut state = RetryState::new(policy);
    let mut now = 0u64;
    let mut sends = 0;
    let last = loop {
        // the candidate repeats on purpose: the wrapper must still get fresh IDs
        let (id, _) = mux.send(query(&["example", "com"], 1), 500, state.used_ids(), now).unwrap();
        state.record_send(id);
        sends += 1;
        now += 60;
        let outcome = match mux.expire(id, now) {
            Some((_, k)) => Outcome::Failure(k),
            None => panic!("the inner handle never answers"),
        };
        match state.decide(&outcome) {
            RetryAction::Resend { delay_ms } => {
                assert_eq!(delay_ms, 10);
                now += delay_ms;
            }
            RetryAction::Return => break outcome,
        }
    };
    assert_eq!(sends, 3);
    let ids = state.used_ids().clone();
    assert_eq!(ids.len(), 3);
    assert!(ids[0] != ids[1] && ids[1] != ids[2] && ids[0] != ids[2]);
    assert_eq!(ids, vec![500, 501, 502]);
    assert_eq!(last, Outcome::Failure(ProtoErrorKind::Timeout));
}

#[test]
fn authoritative_responses_are_not_retried() {
    let policy = RetryPolicy { max_attempts: 5, base_delay_ms: 100, delay: DelayPolicy::Exponential, retry_truncated: true };
    let mut state = RetryState::new(policy);
    state.record_send(1);
    assert_eq!(state.decide(&Outcome::Response { truncated: false }), RetryAction::Return);
    assert_eq!(state.decide(&Outcome::Failure(ProtoErrorKind::MessageFormat)), RetryAction::Return);
    assert_eq!(state.decide(&Outcome::Response { truncated: true }), RetryAction::Resend { delay_ms: 100 });
    state.record_send(2);
    assert_eq!(state.decide(&Outcome::Failure(ProtoErrorKind::Timeout)), RetryAction::Resend { delay_ms: 200 });
    state.record_send(3);
    assert_eq!(
        state.decide(&Outcome::Failure(ProtoErrorKind::ConnectionError(104))),
        RetryAction::Resend { delay_ms: 400 }
    );
    let fixed = RetryState::new(RetryPolicy { retry_truncated: false, ..policy });
    assert_eq!(fixed.decide(&Outcome::Response { truncated: true }), RetryAction::Return);
}

#[test]
fn exponential_delay_saturates() {
    let policy = RetryPolicy { max_attempts: 100, base_delay_ms: u64::MAX / 2 + 1, delay: DelayPolicy::Exponential, retry_truncated: false };
    let mut state = RetryState::new(policy);
    state.record_send(1);
    state.record_send(2);
    assert_eq!(state.decide(&Outcome::Failure(ProtoErrorKind::Timeout)), RetryAction::Resend { delay_ms: u64::MAX });
}

#[test]
fn closing_resolves_every_pending_query() {
    let mut mux = Multiplexer::new(TransportKind::Stream, 1000);
    let mut ids = Vec::new();
    for i in 0..3u16 {
        let (id, _) = mux.send(query(&["example", "com"], 1), i * 10, &vec![], 0).unwrap();
        ids.push(id);
    }
    let drained = mux.close(ProtoErrorKind::ConnectionClosed);
    assert_eq!(drained.len(), 3);
    for (k, (id, reason)) in drained.iter().enumerate() {
        assert_eq!(*id, ids[k]);
        assert_eq!(*reason, ProtoErrorKind::ConnectionClosed);
    }
    assert_eq!(mux.pending_count(), 0);
    assert_eq!(mux.state(), MuxState::Closed);
    assert!(matches!(
        mux.send(query(&["example", "com"], 1), 0, &vec![], 0),
        Err(ProtoErrorKind::ConnectionClosed)
    ));
}

#[test]
fn query_with_two_questions_is_refused() {
    let mut mux = Multiplexer::new(TransportKind::Datagram, 1000);
    let mut q = query(&["a"], 1);
    q.queries.push(Question { name: name(&["b"]), query_type: 1, query_class: 1 });
    assert!(matches!(mux.send(q, 0, &vec![], 0), Err(ProtoErrorKind::MessageFormat)));
}

#[test]
fn allocation_skips_taken_ids() {
    let mut t = TransactionTable::new();
    t.register(PendingQuery {
        id: 65535,
        question: Question { name: name(&["a"]), query_type: 1, query_class: 1 },
        deadline: 10,
        attempts: 1,
    });
    assert_eq!(t.allocate(65535, &vec![0]), Ok(1));
    assert!(t.contains(65535));
    assert!(!t.contains(1));
}

#[test]
fn stream_frames_carry_a_length_prefix() {
    let mut mux = Multiplexer::new(TransportKind::Stream, 1000);
    let (id, bytes) = mux.send(query(&["a"], 1), 0x0102, &vec![], 0).unwrap();
    assert_eq!(id, 0x0102);
    let n = bytes.len() - 2;
    assert_eq!(bytes[0] as usize * 256 + bytes[1] as usize, n);
    assert_eq!(&bytes[2..4], &[0x01, 0x02]);
    match deframe_stream(&bytes) {
        Ok(StreamFrame::Frame(m, used)) => {
            assert_eq!(used, bytes.len());
            assert_eq!(m.header.id, id);
        }
        _ => panic!("a whole frame is there"),
    }
}

#[test]
fn zero_length_prefix_is_truncated() {
    assert!(matches!(deframe_stream(&[0, 0, 1, 2]), Err(ProtoErrorKind::Truncated)));
    let mut mux = Multiplexer::new(TransportKind::Stream, 1000);
    mux.send(query(&["a"], 1), 0, &vec![], 0).unwrap();
    match mux.on_stream(&[0, 0]) {
        StreamEvent::Fatal(k, drained) => {
            assert_eq!(k, ProtoErrorKind::Truncated);
            assert_eq!(drained.len(), 1);
        }
        _ => panic!("a zero prefix is fatal"),
    }
    assert_eq!(mux.state(), MuxState::Closed);
}

#[test]
fn partial_frame_waits_then_leftover_is_truncated() {
    assert!(matches!(deframe_stream(&[0]), Ok(StreamFrame::NeedMore)));
    assert!(matches!(deframe_stream(&[0, 20, 1, 2, 3]), Ok(StreamFrame::NeedMore)));
    assert!(matches!(finish_stream(&[0, 20, 1, 2, 3]), Err(ProtoErrorKind::Truncated)));
    assert!(finish_stream(&[]).is_ok());
}

#[test]
fn undecodable_stream_frame_is_fatal() {
    let mut mux = Multiplexer::new(TransportKind::Stream, 1000);
    match mux.on_stream(&[0, 3, 1, 2, 3]) {
        StreamEvent::Fatal(k, _) => assert_eq!(k, ProtoErrorKind::MessageFormat),
        _ => panic!("a bad frame is fatal on a stream"),
    }
    assert_eq!(mux.state(), MuxState::Closed);
}

#[test]
fn malformed_datagram_is_dropped_and_connection_stays() {
    let mut mux = Multiplexer::new(TransportKind::Datagram, 1000);
    let (id, _) = mux.send(query(&["example", "com"], 1), 3, &vec![], 0).unwrap();
    assert!(accept_datagram(&[1, 2, 3]).is_none());
    assert!(matches!(mux.on_datagram(&[1, 2, 3]), Inbound::Dropped));
    assert_eq!(mux.state(), MuxState::Active);
    assert_eq!(mux.pending_count(), 1);
    let real = encode(&response(id, &["example", "com"], 1));
    assert!(matches!(mux.on_datagram(&real), Inbound::Delivered(_, _)));
}

#[test]
fn oversized_payload_cannot_be_framed() {
    assert!(matches!(frame_stream(&vec![0u8; 65536]), Err(ProtoErrorKind::MessageFormat)));
    assert_eq!(frame_stream(&vec![7u8; 3]).unwrap(), vec![0, 3, 7, 7, 7]);
    assert_eq!(frame_stream(&vec![0u8; 300]).unwrap()[..2], [1, 44]);
}
