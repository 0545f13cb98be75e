use vstd::prelude::*;
use vstd::slice::{slice_subrange, slice_to_vec};

use crate::error::ProtoErrorKind;
use crate::name::{
    parse_labels,
    decode_name, emit_compressed, extends, lemma_parse_labels_extends, lemma_parse_name_extends,
    name_wf, parse_name, table_ok, Name, name_bytes, remembers, MAX_POINTER_OFFSET,
};

verus! {

/// Length of the fixed header.
pub const HEADER_LEN: usize = 12;

/// Record type code of an IPv4 address record.
pub const TYPE_A: u16 = 1;

/// The fixed header of a message. The four section counts are not stored:
/// they are the lengths of the sections.
#[derive(Clone, Copy, Debug, PartialEq, Eq, Structural)]
pub struct Header {
    pub id: u16,
    pub is_response: bool,
    pub op_code: u8,
    pub authoritative: bool,
    pub truncated: bool,
    pub recursion_desired: bool,
    pub recursion_available: bool,
    pub response_code: u8,
}

/// Opcode and response code fit their four-bit fields.
pub open spec fn header_wf(h: Header) -> bool {
    h.op_code < 16 && h.response_code < 16
}

pub open spec fn bit(b: bool) -> u16 {
    if b { 1 } else { 0 }
}

/// The flags word of a header: QR, Opcode, AA, TC, RD, RA, three reserved
/// bits left zero, RCODE.
pub open spec fn header_flags(h: Header) -> u16 {
    (bit(h.is_response) << 15u16) | (((h.op_code as u16) & 15u16) << 11u16) | (bit(h.authoritative)
        << 10u16) | (bit(h.truncated) << 9u16) | (bit(h.recursion_desired) << 8u16) | (bit(
        h.recursion_available,
    ) << 7u16) | ((h.response_code as u16) & 15u16)
}

/// The header read from an ID and a flags word; the reserved bits are ignored.
pub open spec fn header_from(id: u16, f: u16) -> Header {
    Header {
        id,
        is_response: (f >> 15u16) & 1u16 == 1u16,
        op_code: ((f >> 11u16) & 15u16) as u8,
        authoritative: (f >> 10u16) & 1u16 == 1u16,
        truncated: (f >> 9u16) & 1u16 == 1u16,
        recursion_desired: (f >> 8u16) & 1u16 == 1u16,
        recursion_available: (f >> 7u16) & 1u16 == 1u16,
        response_code: (f & 15u16) as u8,
    }
}

pub proof fn lemma_header_flags_round_trip(h: Header)
    requires
        header_wf(h),
    ensures
        header_from(h.id, header_flags(h)) == h,
{
    let (q, o, a, t, d, v, c) = (
        bit(h.is_response),
        h.op_code as u16,
        bit(h.authoritative),
        bit(h.truncated),
        bit(h.recursion_desired),
        bit(h.recursion_available),
        h.response_code as u16,
    );
    let f = header_flags(h);
    assert(f == (q << 15u16) | ((o & 15u16) << 11u16) | (a << 10u16) | (t << 9u16) | (d << 8u16) | (v
        << 7u16) | (c & 15u16));
    assert(q <= 1 && a <= 1 && t <= 1 && d <= 1 && v <= 1 && o < 16 && c < 16 ==> {
        let f = (q << 15u16) | ((o & 15u16) << 11u16) | (a << 10u16) | (t << 9u16) | (d << 8u16) | (v
            << 7u16) | (c & 15u16);
        &&& (f >> 15u16) & 1u16 == q
        &&& (f >> 11u16) & 15u16 == o
        &&& (f >> 10u16) & 1u16 == a
        &&& (f >> 9u16) & 1u16 == t
        &&& (f >> 8u16) & 1u16 == d
        &&& (f >> 7u16) & 1u16 == v
        &&& f & 15u16 == c
    }) by (bit_vector);
    assert(header_from(h.id, f) =~= h);
}

/// The payload of a record: typed where the type is known, opaque otherwise.
#[derive(Debug)]
pub enum RData {
    /// An IPv4 address, most significant byte first on the wire.
    A(u32),
    /// The bytes of a record whose type has no parser here.
    Opaque(Vec<u8>),
}

pub enum RDataView {
    A(u32),
    Opaque(Seq<u8>),
}

impl View for RData {
    type V = RDataView;

    open spec fn view(&self) -> RDataView {
        match self {
            RData::A(a) => RDataView::A(*a),
            RData::Opaque(d) => RDataView::Opaque(d@),
        }
    }
}

/// A question: the name asked about, its type and class.
pub struct Question {
    pub name: Name,
    pub query_type: u16,
    pub query_class: u16,
}

impl Clone for Question {
    fn clone(&self) -> (r: Question)
        ensures
            r@ == self@,
    {
        Question { name: self.name.clone(), query_type: self.query_type, query_class: self.query_class }
    }
}

pub struct QuestionView {
    pub name: Seq<Seq<u8>>,
    pub query_type: u16,
    pub query_class: u16,
}

impl View for Question {
    type V = QuestionView;

    open spec fn view(&self) -> QuestionView {
        QuestionView { name: self.name@, query_type: self.query_type, query_class: self.query_class }
    }
}

/// A resource record: owner name, type, class, time to live and payload.
pub struct Record {
    pub name: Name,
    pub rr_type: u16,
    pub dns_class: u16,
    pub ttl: u32,
    pub rdata: RData,
}

pub struct RecordView {
    pub name: Seq<Seq<u8>>,
    pub rr_type: u16,
    pub dns_class: u16,
    pub ttl: u32,
    pub rdata: RDataView,
}

impl View for Record {
    type V = RecordView;

    open spec fn view(&self) -> RecordView {
        RecordView {
            name: self.name@,
            rr_type: self.rr_type,
            dns_class: self.dns_class,
            ttl: self.ttl,
            rdata: self.rdata@,
        }
    }
}

/// A whole message: header and the four sections.
pub struct Message {
    pub header: Header,
    pub queries: Vec<Question>,
    pub answers: Vec<Record>,
    pub name_servers: Vec<Record>,
    pub additionals: Vec<Record>,
}

pub struct MessageView {
    pub header: Header,
    pub queries: Seq<QuestionView>,
    pub answers: Seq<RecordView>,
    pub name_servers: Seq<RecordView>,
    pub additionals: Seq<RecordView>,
}

pub open spec fn questions_view(v: Seq<Question>) -> Seq<QuestionView> {
    v.map_values(|q: Question| q@)
}

pub open spec fn records_view(v: Seq<Record>) -> Seq<RecordView> {
    v.map_values(|r: Record| r@)
}

impl View for Message {
    type V = MessageView;

    open spec fn view(&self) -> MessageView {
        MessageView {
            header: self.header,
            queries: questions_view(self.queries@),
            answers: records_view(self.answers@),
            name_servers: records_view(self.name_servers@),
            additionals: records_view(self.additionals@),
        }
    }
}

pub open spec fn rdata_len(d: RDataView) -> int {
    match d {
        RDataView::A(_) => 4,
        RDataView::Opaque(b) => b.len() as int,
    }
}

/// A record can be written: its name is well formed, its payload fits a
/// 16-bit length, and it is typed exactly when its type is A.
pub open spec fn record_wf(r: RecordView) -> bool {
    &&& name_wf(r.name)
    &&& rdata_len(r.rdata) <= 0xffff
    &&& (r.rr_type == TYPE_A <==> r.rdata is A)
}

pub open spec fn records_wf(rs: Seq<RecordView>) -> bool {
    &&& rs.len() <= 0xffff
    &&& forall|i: int| 0 <= i < rs.len() ==> record_wf(#[trigger] rs[i])
}

/// A message can be written: a valid header, well-formed names and records,
/// and each section short enough for its 16-bit count.
pub open spec fn message_wf(m: MessageView) -> bool {
    &&& header_wf(m.header)
    &&& m.queries.len() <= 0xffff
    &&& forall|i: int| 0 <= i < m.queries.len() ==> name_wf(#[trigger] m.queries[i].name)
    &&& records_wf(m.answers)
    &&& records_wf(m.name_servers)
    &&& records_wf(m.additionals)
}

/// The bytes that `qs` takes with every name written out in full.
pub open spec fn questions_plain_len(qs: Seq<QuestionView>) -> int
    decreases qs.len(),
{
    if qs.len() == 0 {
        0
    } else {
        questions_plain_len(qs.drop_last()) + name_bytes(qs.last().name).len() + 4
    }
}

/// The bytes that `rs` takes with every name written out in full.
pub open spec fn records_plain_len(rs: Seq<RecordView>) -> int
    decreases rs.len(),
{
    if rs.len() == 0 {
        0
    } else {
        records_plain_len(rs.drop_last()) + name_bytes(rs.last().name).len() + 10 + rdata_len(rs.last().rdata)
    }
}

/// The length of a message encoded with no compression at all.
pub open spec fn plain_len(m: MessageView) -> int {
    HEADER_LEN + questions_plain_len(m.queries) + records_plain_len(m.answers) + records_plain_len(
        m.name_servers,
    ) + records_plain_len(m.additionals)
}

/// Some non-root name of `qs` comes again in a later question, and its first
/// copy would begin at an offset that a pointer can hold, the section being
/// written from `base` on.
pub open spec fn repeats_within_reach(qs: Seq<QuestionView>, base: int) -> bool {
    exists|j: int, k: int|
        #![trigger qs[j], qs[k]]
        0 <= j < k < qs.len() && qs[j].name.len() > 0 && qs[k].name == qs[j].name && base
            + questions_plain_len(qs.take(j)) <= MAX_POINTER_OFFSET
}

/// Some record of `rs` is owned by the non-root name of a question of `qs`
/// that began within reach of a pointer, the questions being written from
/// the end of the header.
pub open spec fn record_repeats_question(qs: Seq<QuestionView>, rs: Seq<RecordView>) -> bool {
    exists|j: int, k: int|
        #![trigger qs[j], rs[k]]
        0 <= j < qs.len() && 0 <= k < rs.len() && qs[j].name.len() > 0 && rs[k].name == qs[j].name
            && HEADER_LEN + questions_plain_len(qs.take(j)) <= MAX_POINTER_OFFSET
}

/// Once every question name within reach is remembered, a record that
/// repeats one of them is owned by a remembered name.
proof fn lemma_record_repeat_remembered(qs: Seq<QuestionView>, rs: Seq<RecordView>, t: Seq<(Name, u16)>)
    requires
        forall|j: int|
            0 <= j < qs.len() && (#[trigger] qs[j]).name.len() > 0 && HEADER_LEN + questions_plain_len(
                qs.take(j),
            ) <= MAX_POINTER_OFFSET ==> remembers(t, qs[j].name),
    ensures
        record_repeats_question(qs, rs) ==> exists|k: int|
            0 <= k < rs.len() && remembers(t, (#[trigger] rs[k]).name),
{
    if record_repeats_question(qs, rs) {
        let (j, k) = choose|j: int, k: int|
            #![trigger qs[j], rs[k]]
            0 <= j < qs.len() && 0 <= k < rs.len() && qs[j].name.len() > 0 && rs[k].name == qs[j].name
                && HEADER_LEN + questions_plain_len(qs.take(j)) <= MAX_POINTER_OFFSET;
        assert(remembers(t, qs[j].name));
        assert(remembers(t, rs[k].name));
    }
}

/// Some non-root owner name of `rs` comes again in a later record, and its
/// first copy would begin at an offset that a pointer can hold, the section
/// being written from `base` on.
pub open spec fn records_repeat_within_reach(rs: Seq<RecordView>, base: int) -> bool {
    exists|j: int, k: int|
        #![trigger rs[j], rs[k]]
        0 <= j < k < rs.len() && rs[j].name.len() > 0 && rs[k].name == rs[j].name && base
            + records_plain_len(rs.take(j)) <= MAX_POINTER_OFFSET
}

/// Some non-root owner name of `rs1`, a section written from `base` on,
/// comes again as an owner name in `rs2`, a later section, and its first copy
/// would begin at an offset that a pointer can hold.
pub open spec fn records_repeat_across(rs1: Seq<RecordView>, base: int, rs2: Seq<RecordView>) -> bool {
    exists|j: int, k: int|
        #![trigger rs1[j], rs2[k]]
        0 <= j < rs1.len() && 0 <= k < rs2.len() && rs1[j].name.len() > 0 && rs2[k].name == rs1[j].name
            && base + records_plain_len(rs1.take(j)) <= MAX_POINTER_OFFSET
}

/// A big-endian 16-bit integer at `p`.
pub open spec fn be16(msg: Seq<u8>, p: int) -> u16 {
    (msg[p] as int * 256 + msg[p + 1] as int) as u16
}

/// A big-endian 32-bit integer at `p`.
pub open spec fn be32(msg: Seq<u8>, p: int) -> u32 {
    (msg[p] as int * 0x1000000 + msg[p + 1] as int * 0x10000 + msg[p + 2] as int * 0x100
        + msg[p + 3] as int) as u32
}

/// A question at `p`, and the offset past it. A question that would start at
/// or past the end of the bytes is `Truncated`; a bad name or a short fixed
/// part is `MessageFormat`.
pub open spec fn parse_question(msg: Seq<u8>, p: int) -> Result<(QuestionView, int), ProtoErrorKind> {
    if p < 0 || p >= msg.len() {
        Err(ProtoErrorKind::Truncated)
    } else {
        match parse_name(msg, p) {
            None => Err(ProtoErrorKind::MessageFormat),
            Some((n, e)) => if e + 4 > msg.len() {
                Err(ProtoErrorKind::MessageFormat)
            } else {
                Ok(
                    (
                        QuestionView { name: n, query_type: be16(msg, e), query_class: be16(msg, e + 2) },
                        e + 4,
                    ),
                )
            },
        }
    }
}

/// The payload of a record of type `rr_type` held in `len` bytes at `p`.
pub open spec fn parse_rdata(msg: Seq<u8>, p: int, rr_type: u16, len: int) -> Result<RDataView, ProtoErrorKind> {
    if rr_type == TYPE_A {
        if len == 4 {
            Ok(RDataView::A(be32(msg, p)))
        } else {
            Err(ProtoErrorKind::MessageFormat)
        }
    } else {
        Ok(RDataView::Opaque(msg.subrange(p, p + len)))
    }
}

/// A resource record at `p`, and the offset past it. A record that would
/// start at or past the end of the bytes is `Truncated`; a bad name, a short
/// fixed part, a payload longer than the bytes left or a payload that its
/// type rejects is `MessageFormat`.
pub open spec fn parse_record(msg: Seq<u8>, p: int) -> Result<(RecordView, int), ProtoErrorKind> {
    if p < 0 || p >= msg.len() {
        Err(ProtoErrorKind::Truncated)
    } else {
        match parse_name(msg, p) {
            None => Err(ProtoErrorKind::MessageFormat),
            Some((n, e)) => if e + 10 > msg.len() {
                Err(ProtoErrorKind::MessageFormat)
            } else if e + 10 + be16(msg, e + 8) as int > msg.len() {
                Err(ProtoErrorKind::MessageFormat)
            } else {
                match parse_rdata(msg, e + 10, be16(msg, e), be16(msg, e + 8) as int) {
                    Ok(rd) => Ok(
                        (
                            RecordView {
                                name: n,
                                rr_type: be16(msg, e),
                                dns_class: be16(msg, e + 2),
                                ttl: be32(msg, e + 4),
                                rdata: rd,
                            },
                            e + 10 + be16(msg, e + 8) as int,
                        ),
                    ),
                    Err(k) => Err(k),
                }
            },
        }
    }
}

/// `n` questions in a row from `p`.
pub open spec fn parse_questions(msg: Seq<u8>, p: int, n: nat) -> Result<(Seq<QuestionView>, int), ProtoErrorKind>
    decreases n,
{
    if n == 0 {
        Ok((Seq::empty(), p))
    } else {
        match parse_question(msg, p) {
            Err(k) => Err(k),
            Ok((q, e)) => match parse_questions(msg, e, (n - 1) as nat) {
                Err(k) => Err(k),
                Ok((qs, e2)) => Ok((seq![q] + qs, e2)),
            },
        }
    }
}

/// `n` records in a row from `p`.
pub open spec fn parse_records(msg: Seq<u8>, p: int, n: nat) -> Result<(Seq<RecordView>, int), ProtoErrorKind>
    decreases n,
{
    if n == 0 {
        Ok((Seq::empty(), p))
    } else {
        match parse_record(msg, p) {
            Err(k) => Err(k),
            Ok((r, e)) => match parse_records(msg, e, (n - 1) as nat) {
                Err(k) => Err(k),
                Ok((rs, e2)) => Ok((seq![r] + rs, e2)),
            },
        }
    }
}

/// The message that `msg` holds: the header, then exactly as many questions
/// and records as its counts declare. Bytes after the last record are
/// ignored. A header shorter than 12 bytes is `Truncated`.
pub open spec fn parse_message(msg: Seq<u8>) -> Result<MessageView, ProtoErrorKind> {
    if msg.len() < HEADER_LEN {
        Err(ProtoErrorKind::Truncated)
    } else {
        let h = header_from(be16(msg, 0), be16(msg, 2));
        match parse_questions(msg, 12, be16(msg, 4) as nat) {
            Err(k) => Err(k),
            Ok((qs, after_qd)) => match parse_records(msg, after_qd, be16(msg, 6) as nat) {
                Err(k) => Err(k),
                Ok((ans, after_an)) => match parse_records(msg, after_an, be16(msg, 8) as nat) {
                    Err(k) => Err(k),
                    Ok((ns, after_ns)) => match parse_records(msg, after_ns, be16(msg, 10) as nat) {
                        Err(k) => Err(k),
                        Ok((ad, _)) => Ok(
                            MessageView {
                                header: h,
                                queries: qs,
                                answers: ans,
                                name_servers: ns,
                                additionals: ad,
                            },
                        ),
                    },
                },
            },
        }
    }
}


fn read_u16(msg: &[u8], p: usize) -> (r: u16)
    requires
        p + 2 <= msg@.len(),
    ensures
        r == be16(msg@, p as int),
{
    (msg[p] as u16) * 256 + msg[p + 1] as u16
}

fn read_u32(msg: &[u8], p: usize) -> (r: u32)
    requires
        p + 4 <= msg@.len(),
    ensures
        r == be32(msg@, p as int),
{
    (msg[p] as u32) * 0x1000000 + (msg[p + 1] as u32) * 0x10000 + (msg[p + 2] as u32) * 0x100
        + msg[p + 3] as u32
}

/// Reads the question at `p`, exactly as `parse_question` describes.
pub fn decode_question(msg: &[u8], p: usize) -> (r: Result<(Question, usize), ProtoErrorKind>)
    ensures
        match parse_question(msg@, p as int) {
            Ok((q, e)) => r is Ok && r->Ok_0.0@ == q && r->Ok_0.1 == e,
            Err(k) => r is Err && r->Err_0 == k,
        },
{
    if p >= msg.len() {
        return Err(ProtoErrorKind::Truncated);
    }
    match decode_name(msg, p) {
        Err(k) => Err(k),
        Ok((name, e)) => {
            if 4 > msg.len() - e {
                return Err(ProtoErrorKind::MessageFormat);
            }
            let query_type = read_u16(msg, e);
            let query_class = read_u16(msg, e + 2);
            Ok((Question { name, query_type, query_class }, e + 4))
        },
    }
}

/// Reads the record at `p`, exactly as `parse_record` describes.
pub fn decode_record(msg: &[u8], p: usize) -> (r: Result<(Record, usize), ProtoErrorKind>)
    ensures
        match parse_record(msg@, p as int) {
            Ok((x, e)) => r is Ok && r->Ok_0.0@ == x && r->Ok_0.1 == e,
            Err(k) => r is Err && r->Err_0 == k,
        },
{
    if p >= msg.len() {
        return Err(ProtoErrorKind::Truncated);
    }
    match decode_name(msg, p) {
        Err(k) => Err(k),
        Ok((name, e)) => {
            if 10 > msg.len() - e {
                return Err(ProtoErrorKind::MessageFormat);
            }
            let rr_type = read_u16(msg, e);
            let dns_class = read_u16(msg, e + 2);
            let ttl = read_u32(msg, e + 4);
            let len = read_u16(msg, e + 8) as usize;
            if len > msg.len() - e - 10 {
                return Err(ProtoErrorKind::MessageFormat);
            }
            let d = e + 10;
            let rdata = if rr_type == TYPE_A {
                if len != 4 {
                    return Err(ProtoErrorKind::MessageFormat);
                }
                RData::A(read_u32(msg, d))
            } else {
                RData::Opaque(slice_to_vec(slice_subrange(msg, d, d + len)))
            };
            Ok((Record { name, rr_type, dns_class, ttl, rdata }, d + len))
        },
    }
}

pub open spec fn prepend_questions(
    a: Seq<QuestionView>,
    o: Result<(Seq<QuestionView>, int), ProtoErrorKind>,
) -> Result<(Seq<QuestionView>, int), ProtoErrorKind> {
    match o {
        Ok((x, e)) => Ok((a + x, e)),
        Err(k) => Err(k),
    }
}

pub open spec fn prepend_records(
    a: Seq<RecordView>,
    o: Result<(Seq<RecordView>, int), ProtoErrorKind>,
) -> Result<(Seq<RecordView>, int), ProtoErrorKind> {
    match o {
        Ok((x, e)) => Ok((a + x, e)),
        Err(k) => Err(k),
    }
}

/// Reads `n` questions from `p`, exactly as `parse_questions` describes.
pub fn decode_questions(msg: &[u8], p: usize, n: u16) -> (r: Result<(Vec<Question>, usize), ProtoErrorKind>)
    ensures
        match parse_questions(msg@, p as int, n as nat) {
            Ok((qs, e)) => r is Ok && questions_view(r->Ok_0.0@) == qs && r->Ok_0.1 == e,
            Err(k) => r is Err && r->Err_0 == k,
        },
{
    let ghost m = msg@;
    let mut out: Vec<Question> = Vec::new();
    let mut cur: usize = p;
    let mut i: u16 = 0;
    proof {
        let o = parse_questions(m, p as int, n as nat);
        if o is Ok {
            assert(questions_view(out@) + o->Ok_0.0 =~= o->Ok_0.0);
        }
    }
    while i < n
        invariant
            m == msg@,
            i <= n,
            parse_questions(m, p as int, n as nat) == prepend_questions(
                questions_view(out@),
                parse_questions(m, cur as int, (n - i) as nat),
            ),
        decreases n - i,
    {
        let ghost qv = questions_view(out@);
        match decode_question(msg, cur) {
            Err(k) => {
                return Err(k);
            },
            Ok((q, e)) => {
                proof {
                    assert(questions_view(out@.push(q)) =~= qv.push(q@));
                    match parse_questions(m, e as int, (n - i - 1) as nat) {
                        Ok((rest, _)) => {
                            assert(qv + (seq![q@] + rest) =~= qv.push(q@) + rest);
                        },
                        Err(_) => {},
                    }
                }
                out.push(q);
                cur = e;
                i = i + 1;
            },
        }
    }
    assert(questions_view(out@) + Seq::<QuestionView>::empty() =~= questions_view(out@));
    Ok((out, cur))
}

/// Reads `n` records from `p`, exactly as `parse_records` describes.
pub fn decode_records(msg: &[u8], p: usize, n: u16) -> (r: Result<(Vec<Record>, usize), ProtoErrorKind>)
    ensures
        match parse_records(msg@, p as int, n as nat) {
            Ok((rs, e)) => r is Ok && records_view(r->Ok_0.0@) == rs && r->Ok_0.1 == e,
            Err(k) => r is Err && r->Err_0 == k,
        },
{
    let ghost m = msg@;
    let mut out: Vec<Record> = Vec::new();
    let mut cur: usize = p;
    let mut i: u16 = 0;
    proof {
        let o = parse_records(m, p as int, n as nat);
        if o is Ok {
            assert(records_view(out@) + o->Ok_0.0 =~= o->Ok_0.0);
        }
    }
    while i < n
        invariant
            m == msg@,
            i <= n,
            parse_records(m, p as int, n as nat) == prepend_records(
                records_view(out@),
                parse_records(m, cur as int, (n - i) as nat),
            ),
        decreases n - i,
    {
        let ghost rv = records_view(out@);
        match decode_record(msg, cur) {
            Err(k) => {
                return Err(k);
            },
            Ok((x, e)) => {
                proof {
                    assert(records_view(out@.push(x)) =~= rv.push(x@));
                    match parse_records(m, e as int, (n - i - 1) as nat) {
                        Ok((rest, _)) => {
                            assert(rv + (seq![x@] + rest) =~= rv.push(x@) + rest);
                        },
                        Err(_) => {},
                    }
                }
                out.push(x);
                cur = e;
                i = i + 1;
            },
        }
    }
    assert(records_view(out@) + Seq::<RecordView>::empty() =~= records_view(out@));
    Ok((out, cur))
}

/// Decodes a whole message, exactly as `parse_message` describes: never
/// reading past the end of `msg`, whatever it holds.
pub fn decode(msg: &[u8]) -> (r: Result<Message, ProtoErrorKind>)
    ensures
        match parse_message(msg@) {
            Ok(v) => r is Ok && r->Ok_0@ == v,
            Err(k) => r is Err && r->Err_0 == k,
        },
{
    if msg.len() < HEADER_LEN {
        return Err(ProtoErrorKind::Truncated);
    }
    let id = read_u16(msg, 0);
    let flags = read_u16(msg, 2);
    let header = Header {
        id,
        is_response: (flags >> 15u16) & 1u16 == 1u16,
        op_code: ((flags >> 11u16) & 15u16) as u8,
        authoritative: (flags >> 10u16) & 1u16 == 1u16,
        truncated: (flags >> 9u16) & 1u16 == 1u16,
        recursion_desired: (flags >> 8u16) & 1u16 == 1u16,
        recursion_available: (flags >> 7u16) & 1u16 == 1u16,
        response_code: (flags & 15u16) as u8,
    };
    let qd = read_u16(msg, 4);
    let an = read_u16(msg, 6);
    let ns = read_u16(msg, 8);
    let ar = read_u16(msg, 10);
    let (queries, after_qd) = match decode_questions(msg, HEADER_LEN, qd) {
        Ok(x) => x,
        Err(k) => {
            return Err(k);
        },
    };
    let (answers, after_an) = match decode_records(msg, after_qd, an) {
        Ok(x) => x,
        Err(k) => {
            return Err(k);
        },
    };
    let (name_servers, after_ns) = match decode_records(msg, after_an, ns) {
        Ok(x) => x,
        Err(k) => {
            return Err(k);
        },
    };
    let (additionals, _) = match decode_records(msg, after_ns, ar) {
        Ok(x) => x,
        Err(k) => {
            return Err(k);
        },
    };
    Ok(Message { header, queries, answers, name_servers, additionals })
}


proof fn lemma_parse_question_extends(a: Seq<u8>, b: Seq<u8>, p: int)
    requires
        extends(a, b),
        parse_question(a, p) is Ok,
    ensures
        parse_question(b, p) == parse_question(a, p),
{
    lemma_parse_name_extends(a, b, p);
    let e = parse_name(a, p).unwrap().1;
    assert(b[e] == a[e] && b[e + 1] == a[e + 1] && b[e + 2] == a[e + 2] && b[e + 3] == a[e + 3]);
}

proof fn lemma_parse_record_extends(a: Seq<u8>, b: Seq<u8>, p: int)
    requires
        extends(a, b),
        parse_record(a, p) is Ok,
    ensures
        parse_record(b, p) == parse_record(a, p),
{
    lemma_parse_name_extends(a, b, p);
    let e = parse_name(a, p).unwrap().1;
    assert forall|k: int| e <= k < e + 10 implies b[k] == a[k] by {}
    assert(be16(b, e) == be16(a, e) && be16(b, e + 2) == be16(a, e + 2) && be16(b, e + 8) == be16(
        a,
        e + 8,
    ));
    assert(be32(b, e + 4) == be32(a, e + 4));
    let len = be16(a, e + 8) as int;
    assert(b.subrange(e + 10, e + 10 + len) =~= a.subrange(e + 10, e + 10 + len));
    if be16(a, e) == TYPE_A {
        assert(be32(b, e + 10) == be32(a, e + 10));
    }
}

proof fn lemma_parse_questions_extends(a: Seq<u8>, b: Seq<u8>, p: int, n: nat)
    requires
        extends(a, b),
        parse_questions(a, p, n) is Ok,
    ensures
        parse_questions(b, p, n) == parse_questions(a, p, n),
    decreases n,
{
    if n > 0 {
        lemma_parse_question_extends(a, b, p);
        lemma_parse_questions_extends(a, b, parse_question(a, p)->Ok_0.1, (n - 1) as nat);
    }
}

proof fn lemma_parse_records_extends(a: Seq<u8>, b: Seq<u8>, p: int, n: nat)
    requires
        extends(a, b),
        parse_records(a, p, n) is Ok,
    ensures
        parse_records(b, p, n) == parse_records(a, p, n),
    decreases n,
{
    if n > 0 {
        lemma_parse_record_extends(a, b, p);
        lemma_parse_records_extends(a, b, parse_record(a, p)->Ok_0.1, (n - 1) as nat);
    }
}

proof fn lemma_parse_questions_push(msg: Seq<u8>, p: int, n: nat, e: int)
    requires
        parse_questions(msg, p, n) == Ok::<(Seq<QuestionView>, int), ProtoErrorKind>(
            (parse_questions(msg, p, n)->Ok_0.0, e),
        ),
        parse_question(msg, e) is Ok,
    ensures
        parse_questions(msg, p, n + 1) == Ok::<(Seq<QuestionView>, int), ProtoErrorKind>(
            (
                parse_questions(msg, p, n)->Ok_0.0.push(parse_question(msg, e)->Ok_0.0),
                parse_question(msg, e)->Ok_0.1,
            ),
        ),
    decreases n,
{
    if n == 0 {
        let q = parse_question(msg, e)->Ok_0.0;
        assert(parse_questions(msg, parse_question(msg, e)->Ok_0.1, 0) == Ok::<(Seq<QuestionView>, int), ProtoErrorKind>((Seq::empty(), parse_question(msg, e)->Ok_0.1)));
        assert(seq![q] + Seq::<QuestionView>::empty() =~= Seq::<QuestionView>::empty().push(q));
    } else {
        let (q0, e0) = parse_question(msg, p)->Ok_0;
        lemma_parse_questions_push(msg, e0, (n - 1) as nat, e);
        let rest = parse_questions(msg, e0, (n - 1) as nat)->Ok_0.0;
        let q = parse_question(msg, e)->Ok_0.0;
        assert(seq![q0] + rest.push(q) =~= (seq![q0] + rest).push(q));
        assert((n + 1 - 1) as nat == n);
    }
}

proof fn lemma_parse_records_push(msg: Seq<u8>, p: int, n: nat, e: int)
    requires
        parse_records(msg, p, n) == Ok::<(Seq<RecordView>, int), ProtoErrorKind>(
            (parse_records(msg, p, n)->Ok_0.0, e),
        ),
        parse_record(msg, e) is Ok,
    ensures
        parse_records(msg, p, n + 1) == Ok::<(Seq<RecordView>, int), ProtoErrorKind>(
            (
                parse_records(msg, p, n)->Ok_0.0.push(parse_record(msg, e)->Ok_0.0),
                parse_record(msg, e)->Ok_0.1,
            ),
        ),
    decreases n,
{
    if n == 0 {
        let x = parse_record(msg, e)->Ok_0.0;
        assert(parse_records(msg, parse_record(msg, e)->Ok_0.1, 0) == Ok::<(Seq<RecordView>, int), ProtoErrorKind>((Seq::empty(), parse_record(msg, e)->Ok_0.1)));
        assert(seq![x] + Seq::<RecordView>::empty() =~= Seq::<RecordView>::empty().push(x));
    } else {
        let (x0, e0) = parse_record(msg, p)->Ok_0;
        lemma_parse_records_push(msg, e0, (n - 1) as nat, e);
        let rest = parse_records(msg, e0, (n - 1) as nat)->Ok_0.0;
        let x = parse_record(msg, e)->Ok_0.0;
        assert(seq![x0] + rest.push(x) =~= (seq![x0] + rest).push(x));
        assert((n + 1 - 1) as nat == n);
    }
}


fn write_u16(buf: &mut Vec<u8>, v: u16)
    ensures
        final(buf)@.len() == old(buf)@.len() + 2,
        extends(old(buf)@, final(buf)@),
        be16(final(buf)@, old(buf)@.len() as int) == v,
{
    buf.push((v / 256) as u8);
    buf.push((v % 256) as u8);
}

fn write_u32(buf: &mut Vec<u8>, v: u32)
    ensures
        final(buf)@.len() == old(buf)@.len() + 4,
        extends(old(buf)@, final(buf)@),
        be32(final(buf)@, old(buf)@.len() as int) == v,
{
    let b3 = v % 256;
    let v1 = v / 256;
    let b2 = v1 % 256;
    let v2 = v1 / 256;
    let b1 = v2 % 256;
    let b0 = v2 / 256;
    assert(b0 < 256);
    assert(v == ((b0 * 256 + b1) * 256 + b2) * 256 + b3);
    let ghost l = buf@.len() as int;
    buf.push(b0 as u8);
    buf.push(b1 as u8);
    buf.push(b2 as u8);
    buf.push(b3 as u8);
    assert(buf@[l] == b0 && buf@[l + 1] == b1 && buf@[l + 2] == b2 && buf@[l + 3] == b3);
}

proof fn lemma_extends_trans(a: Seq<u8>, b: Seq<u8>, c: Seq<u8>)
    requires
        extends(a, b),
        extends(b, c),
    ensures
        extends(a, c),
{
    assert forall|i: int| 0 <= i < a.len() implies #[trigger] c[i] == a[i] by {
        assert(c[i] == b[i]);
    }
}

proof fn lemma_table_extends(table: Seq<(Name, u16)>, a: Seq<u8>, b: Seq<u8>)
    requires
        extends(a, b),
        table_ok(table, a),
    ensures
        table_ok(table, b),
{
    assert forall|k: int| 0 <= k < table.len() implies {
        let (n, o) = #[trigger] table[k];
        &&& (o as int) < b.len()
        &&& o <= crate::name::MAX_POINTER_OFFSET
        &&& parse_labels(b, o as int, o as int) == Some(n@)
    } by {
        let (n, o) = table[k];
        lemma_parse_labels_extends(a, b, o as int, o as int);
    }
}

/// Appends a question, its name compressed against `table`.
fn emit_question(q: &Question, buf: &mut Vec<u8>, table: &mut Vec<(Name, u16)>)
    requires
        name_wf(q.name@),
        table_ok(old(table)@, old(buf)@),
    ensures
        extends(old(buf)@, final(buf)@),
        table_ok(final(table)@, final(buf)@),
        parse_question(final(buf)@, old(buf)@.len() as int) == Ok::<(QuestionView, int), ProtoErrorKind>(
            (q@, final(buf)@.len() as int),
        ),
        final(buf)@.len() <= old(buf)@.len() + name_bytes(q.name@).len() + 4,
        remembers(old(table)@, q.name@) ==> final(buf)@.len() < old(buf)@.len() + name_bytes(
            q.name@,
        ).len() + 4,
        forall|n: Seq<Seq<u8>>| remembers(old(table)@, n) ==> #[trigger] remembers(final(table)@, n),
        q.name@.len() > 0 && old(buf)@.len() <= MAX_POINTER_OFFSET ==> remembers(final(table)@, q.name@),
{
    let ghost b0 = buf@;
    emit_compressed(&q.name, buf, table);
    let ghost b1 = buf@;
    write_u16(buf, q.query_type);
    write_u16(buf, q.query_class);
    proof {
        let b2 = buf@;
        lemma_extends_trans(b0, b1, b2);
        lemma_table_extends(table@, b1, b2);
        lemma_parse_name_extends(b1, b2, b0.len() as int);
        assert(b2[b1.len() as int] == b2[b1.len() as int]);
    }
}

/// Appends a record, its owner name compressed against `table`.
fn emit_record(x: &Record, buf: &mut Vec<u8>, table: &mut Vec<(Name, u16)>)
    requires
        record_wf(x@),
        table_ok(old(table)@, old(buf)@),
    ensures
        extends(old(buf)@, final(buf)@),
        table_ok(final(table)@, final(buf)@),
        parse_record(final(buf)@, old(buf)@.len() as int) == Ok::<(RecordView, int), ProtoErrorKind>(
            (x@, final(buf)@.len() as int),
        ),
        final(buf)@.len() <= old(buf)@.len() + name_bytes(x.name@).len() + 10 + rdata_len(x@.rdata),
        remembers(old(table)@, x.name@) ==> final(buf)@.len() < old(buf)@.len() + name_bytes(
            x.name@,
        ).len() + 10 + rdata_len(x@.rdata),
        x.name@.len() > 0 && old(buf)@.len() <= MAX_POINTER_OFFSET ==> remembers(final(table)@, x.name@),
        forall|n: Seq<Seq<u8>>| remembers(old(table)@, n) ==> #[trigger] remembers(final(table)@, n),
{
    let ghost b0 = buf@;
    emit_compressed(&x.name, buf, table);
    let ghost b1 = buf@;
    write_u16(buf, x.rr_type);
    write_u16(buf, x.dns_class);
    write_u32(buf, x.ttl);
    let ghost e = b1.len() as int;
    match &x.rdata {
        RData::A(a) => {
            write_u16(buf, 4);
            write_u32(buf, *a);
        },
        RData::Opaque(d) => {
            write_u16(buf, d.len() as u16);
            let ghost b3 = buf@;
            let mut i: usize = 0;
            while i < d.len()
                invariant
                    i <= d@.len(),
                    buf@ == b3 + d@.take(i as int),
                decreases d@.len() - i,
            {
                buf.push(d[i]);
                i = i + 1;
                assert(buf@ =~= b3 + d@.take(i as int));
            }
            assert(d@.take(i as int) =~= d@);
            assert(extends(b3, buf@));
            assert(buf@.subrange(e + 10, e + 10 + d@.len()) =~= d@);
        },
    }
    proof {
        let b2 = buf@;
        assert forall|i: int| 0 <= i < e + 10 implies #[trigger] b2[i] == b2[i] by {}
        lemma_extends_trans(b0, b1, b2);
        lemma_table_extends(table@, b1, b2);
        lemma_parse_name_extends(b1, b2, b0.len() as int);
    }
}


/// What writing the questions `qv` from `b0` to `b1` costs: no more than
/// writing them in full, less where a name repeats within reach, and every
/// name within reach is remembered by `t` afterwards.
#[verifier::opaque]
spec fn questions_size(b0: int, b1: int, qv: Seq<QuestionView>, t: Seq<(Name, u16)>) -> bool {
    &&& b1 <= b0 + questions_plain_len(qv)
    &&& repeats_within_reach(qv, b0) ==> b1 < b0 + questions_plain_len(qv)
    &&& forall|j: int|
        0 <= j < qv.len() && (#[trigger] qv[j]).name.len() > 0 && b0 + questions_plain_len(qv.take(j))
            <= MAX_POINTER_OFFSET ==> remembers(t, qv[j].name)
}

/// What writing the records `rv` from `b0` to `b1` costs, the table going
/// from `t0` to `t1`: no more than writing them in full, and less where an
/// owner name was remembered before or repeats within reach.
#[verifier::opaque]
spec fn records_size(b0: int, b1: int, rv: Seq<RecordView>, t0: Seq<(Name, u16)>, t1: Seq<(Name, u16)>) -> bool {
    &&& b1 <= b0 + records_plain_len(rv)
    &&& forall|n: Seq<Seq<u8>>| remembers(t0, n) ==> #[trigger] remembers(t1, n)
    &&& (exists|k: int| 0 <= k < rv.len() && remembers(t0, (#[trigger] rv[k]).name)) ==> b1 < b0
        + records_plain_len(rv)
    &&& records_repeat_within_reach(rv, b0) ==> b1 < b0 + records_plain_len(rv)
    &&& forall|j: int|
        0 <= j < rv.len() && (#[trigger] rv[j]).name.len() > 0 && b0 + records_plain_len(rv.take(j))
            <= MAX_POINTER_OFFSET ==> remembers(t1, rv[j].name)
}

/// Once `rs1` was written from `b1 <= base` and remembered its names within
/// reach in `t`, a repetition across into `rs2` is owned by a remembered name.
proof fn lemma_across_remembered(
    rs1: Seq<RecordView>,
    b1: int,
    base: int,
    rs2: Seq<RecordView>,
    t: Seq<(Name, u16)>,
)
    requires
        b1 <= base,
        records_repeat_across(rs1, base, rs2),
        forall|j: int|
            0 <= j < rs1.len() && (#[trigger] rs1[j]).name.len() > 0 && b1 + records_plain_len(rs1.take(j))
                <= MAX_POINTER_OFFSET ==> remembers(t, rs1[j].name),
    ensures
        exists|k: int| 0 <= k < rs2.len() && remembers(t, (#[trigger] rs2[k]).name),
{
    let (j, k) = choose|j: int, k: int|
        #![trigger rs1[j], rs2[k]]
        0 <= j < rs1.len() && 0 <= k < rs2.len() && rs1[j].name.len() > 0 && rs2[k].name == rs1[j].name
            && base + records_plain_len(rs1.take(j)) <= MAX_POINTER_OFFSET;
    assert(remembers(t, rs1[j].name));
    assert(remembers(t, rs2[k].name));
}

proof fn lemma_encode_size(
    m: MessageView,
    bq: int,
    ba: int,
    bn: int,
    fin: int,
    tq: Seq<(Name, u16)>,
    ta: Seq<(Name, u16)>,
    tn: Seq<(Name, u16)>,
    tf: Seq<(Name, u16)>,
)
    requires
        questions_size(HEADER_LEN as int, bq, m.queries, tq),
        records_size(bq, ba, m.answers, tq, ta),
        records_size(ba, bn, m.name_servers, ta, tn),
        records_size(bn, fin, m.additionals, tn, tf),
    ensures
        fin <= plain_len(m),
        repeats_within_reach(m.queries, HEADER_LEN as int) || record_repeats_question(m.queries, m.answers)
            || record_repeats_question(m.queries, m.name_servers) || record_repeats_question(
            m.queries,
            m.additionals,
        ) ==> fin < plain_len(m),
        records_repeat_within_reach(m.answers, HEADER_LEN + questions_plain_len(m.queries))
            || records_repeat_within_reach(
            m.name_servers,
            HEADER_LEN + questions_plain_len(m.queries) + records_plain_len(m.answers),
        ) || records_repeat_within_reach(
            m.additionals,
            HEADER_LEN + questions_plain_len(m.queries) + records_plain_len(m.answers)
                + records_plain_len(m.name_servers),
        ) ==> fin < plain_len(m),
        records_repeat_across(m.answers, HEADER_LEN + questions_plain_len(m.queries), m.name_servers)
            || records_repeat_across(
            m.answers,
            HEADER_LEN + questions_plain_len(m.queries),
            m.additionals,
        ) || records_repeat_across(
            m.name_servers,
            HEADER_LEN + questions_plain_len(m.queries) + records_plain_len(m.answers),
            m.additionals,
        ) ==> fin < plain_len(m),
{
    reveal(questions_size);
    reveal(records_size);
    let qp = HEADER_LEN + questions_plain_len(m.queries);
    let ap = qp + records_plain_len(m.answers);
    let np = ap + records_plain_len(m.name_servers);
    if records_repeat_within_reach(m.answers, qp) {
        lemma_records_repeat_earlier(m.answers, bq, qp);
    }
    if records_repeat_within_reach(m.name_servers, ap) {
        lemma_records_repeat_earlier(m.name_servers, ba, ap);
    }
    if records_repeat_within_reach(m.additionals, np) {
        lemma_records_repeat_earlier(m.additionals, bn, np);
    }
    if records_repeat_across(m.answers, qp, m.name_servers) {
        lemma_across_remembered(m.answers, bq, qp, m.name_servers, ta);
    }
    if records_repeat_across(m.answers, qp, m.additionals) {
        lemma_across_remembered(m.answers, bq, qp, m.additionals, ta);
        let k = choose|k: int| 0 <= k < m.additionals.len() && remembers(ta, (#[trigger] m.additionals[k]).name);
        assert(remembers(tn, m.additionals[k].name));
    }
    if records_repeat_across(m.name_servers, ap, m.additionals) {
        lemma_across_remembered(m.name_servers, ba, ap, m.additionals, tn);
    }
    lemma_record_repeat_remembered(m.queries, m.answers, tq);
    lemma_record_repeat_remembered(m.queries, m.name_servers, tq);
    lemma_record_repeat_remembered(m.queries, m.additionals, tq);
    if record_repeats_question(m.queries, m.name_servers) {
        let k = choose|k: int| 0 <= k < m.name_servers.len() && remembers(tq, (#[trigger] m.name_servers[k]).name);
        assert(remembers(ta, m.name_servers[k].name));
    }
    if record_repeats_question(m.queries, m.additionals) {
        let k = choose|k: int| 0 <= k < m.additionals.len() && remembers(tq, (#[trigger] m.additionals[k]).name);
        assert(remembers(ta, m.additionals[k].name));
        assert(remembers(tn, m.additionals[k].name));
    }
}

/// Each non-root name among the first `i` questions that began within reach
/// of a pointer is remembered by `t`.
#[verifier::opaque]
spec fn remembered_upto(qv: Seq<QuestionView>, p: int, i: int, t: Seq<(Name, u16)>) -> bool {
    forall|j: int|
        0 <= j < i && (#[trigger] qv[j]).name.len() > 0 && p + questions_plain_len(qv.take(j))
            <= MAX_POINTER_OFFSET ==> remembers(t, qv[j].name)
}

/// Among the first `i` questions, some name repeats one that began within
/// reach of a pointer.
#[verifier::opaque]
spec fn repeat_upto(qv: Seq<QuestionView>, p: int, i: int) -> bool {
    exists|j: int, k: int|
        #![trigger qv[j], qv[k]]
        0 <= j < k < i && qv[j].name.len() > 0 && qv[k].name == qv[j].name && p
            + questions_plain_len(qv.take(j)) <= MAX_POINTER_OFFSET
}

proof fn lemma_questions_step(
    qv: Seq<QuestionView>,
    p: int,
    i: int,
    t1: Seq<(Name, u16)>,
    t2: Seq<(Name, u16)>,
    b1: int,
    saved: bool,
) -> (saved2: bool)
    requires
        0 <= i < qv.len(),
        remembered_upto(qv, p, i, t1),
        repeat_upto(qv, p, i) ==> saved,
        forall|n: Seq<Seq<u8>>| remembers(t1, n) ==> #[trigger] remembers(t2, n),
        qv[i].name.len() > 0 && b1 <= MAX_POINTER_OFFSET ==> remembers(t2, qv[i].name),
        b1 <= p + questions_plain_len(qv.take(i)),
    ensures
        remembered_upto(qv, p, i + 1, t2),
        repeat_upto(qv, p, i + 1) ==> saved2,
        saved ==> saved2,
        saved2 ==> saved || remembers(t1, qv[i].name),
{
    reveal(remembered_upto);
    reveal(repeat_upto);
    let hit = exists|j: int|
        0 <= j < i && (#[trigger] qv[j]).name.len() > 0 && qv[j].name == qv[i].name && p
            + questions_plain_len(qv.take(j)) <= MAX_POINTER_OFFSET;
    if hit {
        let j = choose|j: int|
            0 <= j < i && (#[trigger] qv[j]).name.len() > 0 && qv[j].name == qv[i].name && p
                + questions_plain_len(qv.take(j)) <= MAX_POINTER_OFFSET;
        assert(remembers(t1, qv[j].name));
    }
    assert forall|j: int|
        0 <= j < i + 1 && (#[trigger] qv[j]).name.len() > 0 && p + questions_plain_len(qv.take(j))
            <= MAX_POINTER_OFFSET implies remembers(t2, qv[j].name) by {
        if j < i {
            assert(remembers(t1, qv[j].name));
        }
    }
    let saved2 = saved || hit;
    assert forall|j: int, k: int|
        #![trigger qv[j], qv[k]]
        0 <= j < k < i + 1 && qv[j].name.len() > 0 && qv[k].name == qv[j].name && p
            + questions_plain_len(qv.take(j)) <= MAX_POINTER_OFFSET implies saved2 by {
        if k == i {
            assert(hit);
        } else {
            assert(repeat_upto(qv, p, i));
        }
    }
    saved2
}

/// Appends each question of `qs` in order.
fn emit_questions(qs: &Vec<Question>, buf: &mut Vec<u8>, table: &mut Vec<(Name, u16)>)
    requires
        forall|i: int| 0 <= i < qs@.len() ==> name_wf(#[trigger] qs@[i].name@),
        table_ok(old(table)@, old(buf)@),
    ensures
        extends(old(buf)@, final(buf)@),
        table_ok(final(table)@, final(buf)@),
        parse_questions(final(buf)@, old(buf)@.len() as int, qs@.len()) == Ok::<
            (Seq<QuestionView>, int),
            ProtoErrorKind,
        >((questions_view(qs@), final(buf)@.len() as int)),
        questions_size(old(buf)@.len() as int, final(buf)@.len() as int, questions_view(qs@), final(table)@),
{
    let ghost qv = questions_view(qs@);
    let ghost mut saved: bool = false;
    let ghost b0 = buf@;
    let ghost p = b0.len() as int;
    let mut i: usize = 0;
    assert(questions_view(qs@).take(0) =~= Seq::<QuestionView>::empty());
    proof {
        reveal(remembered_upto);
        reveal(repeat_upto);
    }
    while i < qs.len()
        invariant
            i <= qs@.len(),
            p == b0.len(),
            b0 == old(buf)@,
            forall|k: int| 0 <= k < qs@.len() ==> name_wf(#[trigger] qs@[k].name@),
            extends(b0, buf@),
            table_ok(table@, buf@),
            parse_questions(buf@, p, i as nat) == Ok::<(Seq<QuestionView>, int), ProtoErrorKind>(
                (questions_view(qs@).take(i as int), buf@.len() as int),
            ),
            qv == questions_view(qs@),
            remembered_upto(qv, p, i as int, table@),
            buf@.len() + (if saved { 1int } else { 0 }) <= p + questions_plain_len(qv.take(i as int)),
            repeat_upto(qv, p, i as int) ==> saved,
        decreases qs@.len() - i,
    {
        let ghost b1 = buf@;
        let ghost t1 = table@;
        assert(name_wf(qs@[i as int].name@));
        proof {
            assert(qv[i as int] == qs@[i as int]@);
            assert(qv.take(i as int + 1).drop_last() =~= qv.take(i as int));
            assert(qv.take(i as int + 1).last() == qv[i as int]);
        }
        emit_question(&qs[i], buf, table);
        proof {
            saved = lemma_questions_step(qv, p, i as int, t1, table@, b1.len() as int, saved);
            lemma_parse_questions_extends(b1, buf@, p, i as nat);
            lemma_parse_questions_push(buf@, p, i as nat, b1.len() as int);
            lemma_extends_trans(b0, b1, buf@);
            assert(questions_view(qs@).take(i as int + 1) =~= questions_view(qs@).take(i as int).push(
                qs@[i as int]@,
            ));
        }
        i = i + 1;
    }
    assert(questions_view(qs@).take(i as int) =~= questions_view(qs@));
    proof {
        reveal(repeat_upto);
        reveal(remembered_upto);
        reveal(questions_size);
    }
}

#[verifier::opaque]
spec fn remembered_upto_r(rv: Seq<RecordView>, p: int, i: int, t: Seq<(Name, u16)>) -> bool {
    forall|j: int|
        0 <= j < i && (#[trigger] rv[j]).name.len() > 0 && p + records_plain_len(rv.take(j))
            <= MAX_POINTER_OFFSET ==> remembers(t, rv[j].name)
}

#[verifier::opaque]
spec fn repeat_upto_r(rv: Seq<RecordView>, p: int, i: int) -> bool {
    exists|j: int, k: int|
        #![trigger rv[j], rv[k]]
        0 <= j < k < i && rv[j].name.len() > 0 && rv[k].name == rv[j].name && p
            + records_plain_len(rv.take(j)) <= MAX_POINTER_OFFSET
}

proof fn lemma_records_step(
    rv: Seq<RecordView>,
    p: int,
    i: int,
    t1: Seq<(Name, u16)>,
    t2: Seq<(Name, u16)>,
    b1: int,
    saved: bool,
) -> (saved2: bool)
    requires
        0 <= i < rv.len(),
        remembered_upto_r(rv, p, i, t1),
        repeat_upto_r(rv, p, i) ==> saved,
        forall|n: Seq<Seq<u8>>| remembers(t1, n) ==> #[trigger] remembers(t2, n),
        rv[i].name.len() > 0 && b1 <= MAX_POINTER_OFFSET ==> remembers(t2, rv[i].name),
        b1 <= p + records_plain_len(rv.take(i)),
    ensures
        remembered_upto_r(rv, p, i + 1, t2),
        repeat_upto_r(rv, p, i + 1) ==> saved2,
        saved ==> saved2,
        saved2 ==> saved || remembers(t1, rv[i].name),
{
    reveal(remembered_upto_r);
    reveal(repeat_upto_r);
    let hit = exists|j: int|
        0 <= j < i && (#[trigger] rv[j]).name.len() > 0 && rv[j].name == rv[i].name && p
            + records_plain_len(rv.take(j)) <= MAX_POINTER_OFFSET;
    if hit {
        let j = choose|j: int|
            0 <= j < i && (#[trigger] rv[j]).name.len() > 0 && rv[j].name == rv[i].name && p
                + records_plain_len(rv.take(j)) <= MAX_POINTER_OFFSET;
        assert(remembers(t1, rv[j].name));
    }
    assert forall|j: int|
        0 <= j < i + 1 && (#[trigger] rv[j]).name.len() > 0 && p + records_plain_len(rv.take(j))
            <= MAX_POINTER_OFFSET implies remembers(t2, rv[j].name) by {
        if j < i {
            assert(remembers(t1, rv[j].name));
        }
    }
    let saved2 = saved || hit;
    assert forall|j: int, k: int|
        #![trigger rv[j], rv[k]]
        0 <= j < k < i + 1 && rv[j].name.len() > 0 && rv[k].name == rv[j].name && p
            + records_plain_len(rv.take(j)) <= MAX_POINTER_OFFSET implies saved2 by {
        if k == i {
            assert(hit);
        } else {
            assert(repeat_upto_r(rv, p, i));
        }
    }
    saved2
}

/// A repetition within reach of a later start is within reach of an earlier one.
proof fn lemma_records_repeat_earlier(rs: Seq<RecordView>, b1: int, b2: int)
    requires
        b1 <= b2,
        records_repeat_within_reach(rs, b2),
    ensures
        records_repeat_within_reach(rs, b1),
{
    let (j, k) = choose|j: int, k: int|
        #![trigger rs[j], rs[k]]
        0 <= j < k < rs.len() && rs[j].name.len() > 0 && rs[k].name == rs[j].name && b2
            + records_plain_len(rs.take(j)) <= MAX_POINTER_OFFSET;
    assert(rs[j] == rs[j] && rs[k] == rs[k]);
}

/// Appends each record of `rs` in order.
fn emit_records(rs: &Vec<Record>, buf: &mut Vec<u8>, table: &mut Vec<(Name, u16)>)
    requires
        forall|i: int| 0 <= i < rs@.len() ==> record_wf(#[trigger] rs@[i]@),
        table_ok(old(table)@, old(buf)@),
    ensures
        extends(old(buf)@, final(buf)@),
        table_ok(final(table)@, final(buf)@),
        parse_records(final(buf)@, old(buf)@.len() as int, rs@.len()) == Ok::<
            (Seq<RecordView>, int),
            ProtoErrorKind,
        >((records_view(rs@), final(buf)@.len() as int)),
        records_size(
            old(buf)@.len() as int,
            final(buf)@.len() as int,
            records_view(rs@),
            old(table)@,
            final(table)@,
        ),
{
    let ghost rv = records_view(rs@);
    let ghost mut saved: bool = false;
    let ghost t0 = table@;
    let ghost b0 = buf@;
    let ghost p = b0.len() as int;
    let mut i: usize = 0;
    assert(records_view(rs@).take(0) =~= Seq::<RecordView>::empty());
    proof {
        reveal(remembered_upto_r);
        reveal(repeat_upto_r);
    }
    while i < rs.len()
        invariant
            i <= rs@.len(),
            p == b0.len(),
            b0 == old(buf)@,
            forall|k: int| 0 <= k < rs@.len() ==> record_wf(#[trigger] rs@[k]@),
            extends(b0, buf@),
            table_ok(table@, buf@),
            parse_records(buf@, p, i as nat) == Ok::<(Seq<RecordView>, int), ProtoErrorKind>(
                (records_view(rs@).take(i as int), buf@.len() as int),
            ),
            rv == records_view(rs@),
            t0 == old(table)@,
            buf@.len() + (if saved { 1int } else { 0 }) <= p + records_plain_len(rv.take(i as int)),
            forall|n: Seq<Seq<u8>>| remembers(t0, n) ==> #[trigger] remembers(table@, n),
            (exists|k: int| 0 <= k < i && remembers(t0, (#[trigger] rv[k]).name)) ==> saved,
            remembered_upto_r(rv, p, i as int, table@),
            repeat_upto_r(rv, p, i as int) ==> saved,
        decreases rs@.len() - i,
    {
        let ghost b1 = buf@;
        let ghost t1 = table@;
        assert(record_wf(rs@[i as int]@));
        proof {
            assert(rv[i as int] == rs@[i as int]@);
            assert(rv.take(i as int + 1).drop_last() =~= rv.take(i as int));
            assert(rv.take(i as int + 1).last() == rv[i as int]);
        }
        emit_record(&rs[i], buf, table);
        proof {
            let hit = remembers(t0, rv[i as int].name);
            if hit {
                assert(remembers(t1, rv[i as int].name));
            }
            let saved2 = lemma_records_step(rv, p, i as int, t1, table@, b1.len() as int, saved);
            saved = saved2 || hit;
            assert forall|k: int| 0 <= k < i + 1 && remembers(t0, (#[trigger] rv[k]).name) implies saved by {
                if k < i {
                    assert(exists|k2: int| 0 <= k2 < i && remembers(t0, (#[trigger] rv[k2]).name));
                }
            }
            lemma_parse_records_extends(b1, buf@, p, i as nat);
            lemma_parse_records_push(buf@, p, i as nat, b1.len() as int);
            lemma_extends_trans(b0, b1, buf@);
            assert(records_view(rs@).take(i as int + 1) =~= records_view(rs@).take(i as int).push(
                rs@[i as int]@,
            ));
        }
        i = i + 1;
    }
    assert(records_view(rs@).take(i as int) =~= records_view(rs@));
    proof {
        reveal(repeat_upto_r);
        reveal(remembered_upto_r);
        reveal(records_size);
        assert forall|j: int|
            0 <= j < rv.len() && (#[trigger] rv[j]).name.len() > 0 && p + records_plain_len(rv.take(j))
                <= MAX_POINTER_OFFSET implies remembers(table@, rv[j].name) by {
            assert(remembered_upto_r(rv, p, i as int, table@));
        }
    }
}

fn flags_of(h: &Header) -> (r: u16)
    ensures
        r == header_flags(*h),
{
    let q: u16 = if h.is_response { 1 } else { 0 };
    let a: u16 = if h.authoritative { 1 } else { 0 };
    let t: u16 = if h.truncated { 1 } else { 0 };
    let d: u16 = if h.recursion_desired { 1 } else { 0 };
    let v: u16 = if h.recursion_available { 1 } else { 0 };
    (q << 15u16) | (((h.op_code as u16) & 15u16) << 11u16) | (a << 10u16) | (t << 9u16) | (d << 8u16)
        | (v << 7u16) | ((h.response_code as u16) & 15u16)
}

/// Writes the header of `m` into the empty `buf`: ID, flags, and the four
/// section lengths as counts.
fn emit_header(m: &Message, buf: &mut Vec<u8>)
    requires
        old(buf)@.len() == 0,
        header_wf(m.header),
        m.queries@.len() <= 0xffff,
        m.answers@.len() <= 0xffff,
        m.name_servers@.len() <= 0xffff,
        m.additionals@.len() <= 0xffff,
    ensures
        final(buf)@.len() == HEADER_LEN,
        header_from(be16(final(buf)@, 0), be16(final(buf)@, 2)) == m.header,
        be16(final(buf)@, 4) == m.queries@.len(),
        be16(final(buf)@, 6) == m.answers@.len(),
        be16(final(buf)@, 8) == m.name_servers@.len(),
        be16(final(buf)@, 10) == m.additionals@.len(),
{
    let ghost b0 = buf@;
    write_u16(buf, m.header.id);
    let ghost b1 = buf@;
    write_u16(buf, flags_of(&m.header));
    let ghost b2 = buf@;
    write_u16(buf, m.queries.len() as u16);
    let ghost b3 = buf@;
    write_u16(buf, m.answers.len() as u16);
    let ghost b4 = buf@;
    write_u16(buf, m.name_servers.len() as u16);
    let ghost b5 = buf@;
    write_u16(buf, m.additionals.len() as u16);
    let ghost hdr = buf@;
    proof {
        lemma_extends_trans(b1, b2, b3);
        lemma_extends_trans(b1, b3, b4);
        lemma_extends_trans(b1, b4, b5);
        lemma_extends_trans(b1, b5, hdr);
        lemma_extends_trans(b2, b3, b4);
        lemma_extends_trans(b2, b4, b5);
        lemma_extends_trans(b2, b5, hdr);
        lemma_extends_trans(b3, b4, b5);
        lemma_extends_trans(b3, b5, hdr);
        lemma_extends_trans(b4, b5, hdr);
        assert(be16(hdr, 0) == m.header.id);
        assert(be16(hdr, 2) == header_flags(m.header));
        assert(be16(hdr, 4) == m.queries@.len());
        assert(be16(hdr, 6) == m.answers@.len());
        assert(be16(hdr, 8) == m.name_servers@.len());
        assert(be16(hdr, 10) == m.additionals@.len());
        lemma_header_flags_round_trip(m.header);
    }
}

/// Encodes a message: the header with the four counts, then each section in
/// order, names compressed against the names written before them. What comes
/// out decodes to the message itself.
pub fn encode(m: &Message) -> (r: Vec<u8>)
    requires
        message_wf(m@),
    ensures
        parse_message(r@) == Ok::<MessageView, ProtoErrorKind>(m@),
        r@.len() <= plain_len(m@),
        repeats_within_reach(m@.queries, HEADER_LEN as int) || record_repeats_question(m@.queries, m@.answers)
            || record_repeats_question(m@.queries, m@.name_servers) || record_repeats_question(
            m@.queries,
            m@.additionals,
        ) ==> r@.len() < plain_len(m@),
        records_repeat_within_reach(m@.answers, HEADER_LEN + questions_plain_len(m@.queries))
            || records_repeat_within_reach(
            m@.name_servers,
            HEADER_LEN + questions_plain_len(m@.queries) + records_plain_len(m@.answers),
        ) || records_repeat_within_reach(
            m@.additionals,
            HEADER_LEN + questions_plain_len(m@.queries) + records_plain_len(m@.answers)
                + records_plain_len(m@.name_servers),
        ) ==> r@.len() < plain_len(m@),
        records_repeat_across(m@.answers, HEADER_LEN + questions_plain_len(m@.queries), m@.name_servers)
            || records_repeat_across(
            m@.answers,
            HEADER_LEN + questions_plain_len(m@.queries),
            m@.additionals,
        ) || records_repeat_across(
            m@.name_servers,
            HEADER_LEN + questions_plain_len(m@.queries) + records_plain_len(m@.answers),
            m@.additionals,
        ) ==> r@.len() < plain_len(m@),
{
    let mut buf: Vec<u8> = Vec::new();
    emit_header(m, &mut buf);
    let ghost hdr = buf@;
    let mut table: Vec<(Name, u16)> = Vec::new();
    proof {
        assert forall|i: int| 0 <= i < m.queries@.len() implies name_wf(#[trigger] m.queries@[i].name@) by {
            assert(m@.queries[i] == m.queries@[i]@);
            assert(name_wf(m@.queries[i].name));
        }
        assert forall|i: int| 0 <= i < m.answers@.len() implies record_wf(#[trigger] m.answers@[i]@) by {
            assert(m@.answers[i] == m.answers@[i]@);
        }
        assert forall|i: int| 0 <= i < m.name_servers@.len() implies record_wf(
            #[trigger] m.name_servers@[i]@,
        ) by {
            assert(m@.name_servers[i] == m.name_servers@[i]@);
        }
        assert forall|i: int| 0 <= i < m.additionals@.len() implies record_wf(
            #[trigger] m.additionals@[i]@,
        ) by {
            assert(m@.additionals[i] == m.additionals@[i]@);
        }
    }
    emit_questions(&m.queries, &mut buf, &mut table);
    let ghost bq = buf@;
    let ghost tq = table@;
    emit_records(&m.answers, &mut buf, &mut table);
    let ghost ba = buf@;
    let ghost ta = table@;
    emit_records(&m.name_servers, &mut buf, &mut table);
    let ghost bn = buf@;
    let ghost tn = table@;
    emit_records(&m.additionals, &mut buf, &mut table);
    proof {
        lemma_encode_size(m@, bq.len() as int, ba.len() as int, bn.len() as int, buf@.len() as int, tq, ta, tn, table@);
        let fin = buf@;
        lemma_extends_trans(hdr, bq, ba);
        lemma_extends_trans(hdr, ba, bn);
        lemma_extends_trans(hdr, bn, fin);
        lemma_extends_trans(bq, ba, bn);
        lemma_extends_trans(bq, bn, fin);
        lemma_extends_trans(ba, bn, fin);
        assert forall|i: int| 0 <= i < 12 implies #[trigger] fin[i] == hdr[i] by {}
        assert(be16(fin, 0) == be16(hdr, 0) && be16(fin, 2) == be16(hdr, 2) && be16(fin, 4) == be16(
            hdr,
            4,
        ) && be16(fin, 6) == be16(hdr, 6) && be16(fin, 8) == be16(hdr, 8) && be16(fin, 10) == be16(
            hdr,
            10,
        ));
        lemma_parse_questions_extends(bq, fin, 12, m.queries@.len());
        lemma_parse_records_extends(ba, fin, bq.len() as int, m.answers@.len());
        lemma_parse_records_extends(bn, fin, ba.len() as int, m.name_servers@.len());
    }
    buf
}


/// Whether a record can be written, exactly as `record_wf` says.
pub fn record_is_valid(x: &Record) -> (r: bool)
    ensures
        r == record_wf(x@),
{
    let len_ok = match &x.rdata {
        RData::A(_) => x.rr_type == TYPE_A,
        RData::Opaque(d) => d.len() <= 0xffff && x.rr_type != TYPE_A,
    };
    len_ok && x.name.is_valid()
}

fn records_are_valid(rs: &Vec<Record>) -> (r: bool)
    ensures
        r == records_wf(records_view(rs@)),
{
    if rs.len() > 0xffff {
        return false;
    }
    let mut i: usize = 0;
    while i < rs.len()
        invariant
            i <= rs@.len(),
            forall|k: int| 0 <= k < i ==> record_wf(#[trigger] records_view(rs@)[k]),
        decreases rs@.len() - i,
    {
        if !record_is_valid(&rs[i]) {
            assert(!record_wf(records_view(rs@)[i as int]));
            return false;
        }
        i = i + 1;
    }
    true
}

/// Whether a message can be encoded, exactly as `message_wf` says.
pub fn message_is_valid(m: &Message) -> (r: bool)
    ensures
        r == message_wf(m@),
{
    if m.header.op_code >= 16 || m.header.response_code >= 16 || m.queries.len() > 0xffff {
        return false;
    }
    let mut i: usize = 0;
    while i < m.queries.len()
        invariant
            i <= m.queries@.len(),
            header_wf(m.header),
            m.queries@.len() <= 0xffff,
            forall|k: int| 0 <= k < i ==> name_wf(#[trigger] m@.queries[k].name),
        decreases m.queries@.len() - i,
    {
        assert(m@.queries[i as int] == m.queries@[i as int]@);
        if !m.queries[i].name.is_valid() {
            assert(!name_wf(m@.queries[i as int].name));
            return false;
        }
        i = i + 1;
    }
    records_are_valid(&m.answers) && records_are_valid(&m.name_servers) && records_are_valid(
        &m.additionals,
    )
}

} // verus!
