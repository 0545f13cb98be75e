use vstd::prelude::*;

use crate::error::ProtoErrorKind;
use crate::message::{Message, Question, QuestionView};
use crate::name::{name_eq_ci, names_equal_ci};

verus! {

/// A query waiting for its response. Queries carry one question each, so
/// the entry keeps that one question to check responses against.
pub struct PendingQuery {
    pub id: u16,
    pub question: Question,
    /// Absolute deadline, in the caller's clock units.
    pub deadline: u64,
    /// How many times the query has been sent so far.
    pub attempts: u32,
}

pub struct PendingView {
    pub id: u16,
    pub question: QuestionView,
    pub deadline: u64,
    pub attempts: u32,
}

impl View for PendingQuery {
    type V = PendingView;

    open spec fn view(&self) -> PendingView {
        PendingView {
            id: self.id,
            question: self.question@,
            deadline: self.deadline,
            attempts: self.attempts,
        }
    }
}

pub open spec fn pending_view(s: Seq<PendingQuery>) -> Seq<PendingView> {
    s.map_values(|p: PendingQuery| p@)
}

/// The IDs of the entries are pairwise distinct.
pub open spec fn ids_unique(s: Seq<PendingView>) -> bool {
    forall|i: int, j: int| 0 <= i < s.len() && 0 <= j < s.len() && i != j ==> s[i].id != s[j].id
}

pub open spec fn has_id(s: Seq<PendingView>, id: u16) -> bool {
    exists|i: int| 0 <= i < s.len() && (#[trigger] s[i]).id == id
}

/// Two questions are the same question: equal names under DNS rules, equal
/// type and class.
pub open spec fn question_matches(a: QuestionView, b: QuestionView) -> bool {
    &&& name_eq_ci(a.name, b.name)
    &&& a.query_type == b.query_type
    &&& a.query_class == b.query_class
}

/// A response answers a pending entry: same ID, and a question section of
/// exactly one question that matches the entry's.
pub open spec fn answers(id: u16, qs: Seq<QuestionView>, p: PendingView) -> bool {
    &&& p.id == id
    &&& qs.len() == 1
    &&& question_matches(qs[0], p.question)
}

/// The outstanding queries of one connection, keyed by transaction ID.
pub struct TransactionTable {
    entries: Vec<PendingQuery>,
}

impl View for TransactionTable {
    type V = Seq<PendingView>;

    closed spec fn view(&self) -> Seq<PendingView> {
        pending_view(self.entries@)
    }
}

impl TransactionTable {
    /// Keys are unique among the outstanding entries.
    pub closed spec fn wf(&self) -> bool {
        ids_unique(self@)
    }

    /// A well-formed table holds each ID at most once.
    pub proof fn lemma_wf_ids_unique(&self)
        requires
            self.wf(),
        ensures
            ids_unique(self@),
    {
    }

    pub fn new() -> (r: TransactionTable)
        ensures
            r.wf(),
            r@ == Seq::<PendingView>::empty(),
    {
        let r = TransactionTable { entries: Vec::new() };
        assert(r@ =~= Seq::<PendingView>::empty());
        r
    }

    pub fn len(&self) -> (r: usize)
        ensures
            r == self@.len(),
    {
        self.entries.len()
    }

    /// Whether an entry with this ID is outstanding.
    pub fn contains(&self, id: u16) -> (r: bool)
        ensures
            r == has_id(self@, id),
    {
        let mut i: usize = 0;
        while i < self.entries.len()
            invariant
                i <= self.entries@.len(),
                forall|k: int| 0 <= k < i ==> (#[trigger] self@[k]).id != id,
            decreases self.entries@.len() - i,
        {
            if self.entries[i].id == id {
                assert(self@[i as int].id == id);
                return true;
            }
            i = i + 1;
        }
        false
    }

    /// Picks an ID that is neither outstanding nor in `avoid`, probing from
    /// `candidate` upwards (wrapping); the caller draws `candidate` at random
    /// so that IDs are not predictable. Fails with `Exhausted` exactly when
    /// every ID is taken.
    pub fn allocate(&self, candidate: u16, avoid: &Vec<u16>) -> (r: Result<u16, ProtoErrorKind>)
        ensures
            r matches Ok(id) ==> !has_id(self@, id) && !avoid@.contains(id),
            r is Err ==> r->Err_0 == ProtoErrorKind::Exhausted && forall|id: u16|
                has_id(self@, id) || avoid@.contains(id),
    {
        let mut n: u32 = 0;
        let mut id: u16 = candidate;
        while n < 0x10000
            invariant
                n <= 0x10000,
                id as int == (candidate as int + n as int) % 0x10000,
                forall|k: int|
                    0 <= k < n ==> has_id(self@, #[trigger] probe(candidate, k)) || avoid@.contains(
                        probe(candidate, k),
                    ),
            decreases 0x10000 - n,
        {
            if !self.contains(id) && !vec_contains(avoid, id) {
                return Ok(id);
            }
            id = if id == 0xffff { 0 } else { id + 1 };
            n = n + 1;
        }
        assert forall|x: u16| has_id(self@, x) || avoid@.contains(x) by {
            let k = if x >= candidate { x - candidate } else { x + 0x10000 - candidate };
            assert(probe(candidate, k as int) == x);
        }
        Err(ProtoErrorKind::Exhausted)
    }

    /// Stores a new pending entry under an ID that is not outstanding.
    pub fn register(&mut self, q: PendingQuery)
        requires
            old(self).wf(),
            !has_id(old(self)@, q.id),
        ensures
            final(self).wf(),
            final(self)@ == old(self)@.push(q@),
    {
        proof {
            assert(pending_view(self.entries@.push(q)) =~= pending_view(self.entries@).push(q@));
        }
        self.entries.push(q);
    }

    /// Removes and returns the entry at `i`.
    fn take_at(&mut self, i: usize) -> (r: PendingQuery)
        requires
            old(self).wf(),
            i < old(self)@.len(),
        ensures
            final(self).wf(),
            r@ == old(self)@[i as int],
            final(self)@ == old(self)@.remove(i as int),
    {
        let r = self.entries.remove(i);
        assert(pending_view(self.entries@) =~= pending_view(old(self).entries@).remove(i as int));
        r
    }

    /// Finds the pending entry that a response answers and removes it. A
    /// response whose ID is outstanding but whose question does not match is
    /// discarded: `None`, and the entry stays for the real response.
    pub fn match_response(&mut self, msg: &Message) -> (r: Option<PendingQuery>)
        requires
            old(self).wf(),
        ensures
            final(self).wf(),
            forall|i: int|
                0 <= i < old(self)@.len() && answers(msg.header.id, msg@.queries, #[trigger] old(self)@[i]) ==> {
                    &&& r matches Some(p) && p@ == old(self)@[i]
                    &&& final(self)@ == old(self)@.remove(i)
                },
            (forall|i: int|
                0 <= i < old(self)@.len() ==> !answers(msg.header.id, msg@.queries, #[trigger] old(self)@[i]))
                ==> r is None && final(self)@ == old(self)@,
            forall|i: int|
                0 <= i < old(self)@.len() && (#[trigger] old(self)@[i]).id == msg.header.id && !answers(
                    msg.header.id,
                    msg@.queries,
                    old(self)@[i],
                ) ==> r is None && final(self)@ == old(self)@,
    {
        let id = msg.header.id;
        let mut i: usize = 0;
        while i < self.entries.len()
            invariant
                self.wf(),
                self@ == old(self)@,
                id == msg.header.id,
                i <= self@.len(),
                forall|k: int| 0 <= k < i ==> (#[trigger] self@[k]).id != id,
            decreases self@.len() - i,
        {
            if self.entries[i].id == id {
                assert(self@[i as int].id == id);
                proof {
                    lemma_unique_index(self@, i as int);
                    assert(msg@.queries.len() == msg.queries@.len());
                    assert(msg@.header == msg.header);
                    if msg.queries@.len() == 1 {
                        assert(msg@.queries[0] == msg.queries@[0]@);
                    }
                }
                if msg.queries.len() == 1 && self.question_matches_at(i, &msg.queries[0]) {
                    assert(question_matches(msg@.queries[0], self@[i as int].question));
                    assert(answers(msg.header.id, msg@.queries, old(self)@[i as int]));
                    let p = self.take_at(i);
                    return Some(p);
                }
                return None;
            }
            i = i + 1;
        }
        None
    }

    fn question_matches_at(&self, i: usize, q: &Question) -> (r: bool)
        requires
            i < self@.len(),
        ensures
            r == question_matches(q@, self@[i as int].question),
    {
        let p = &self.entries[i].question;
        assert(p@ == self@[i as int].question);
        names_equal_ci(&q.name, &p.name) && q.query_type == p.query_type && q.query_class
            == p.query_class
    }

    /// Removes the entry with this ID because the caller gave up on it; no
    /// outcome is delivered.
    pub fn cancel(&mut self, id: u16) -> (r: Option<PendingQuery>)
        requires
            old(self).wf(),
        ensures
            final(self).wf(),
            forall|i: int|
                0 <= i < old(self)@.len() && (#[trigger] old(self)@[i]).id == id ==> {
                    &&& r matches Some(p) && p@ == old(self)@[i]
                    &&& final(self)@ == old(self)@.remove(i)
                },
            !has_id(old(self)@, id) ==> r is None && final(self)@ == old(self)@,
    {
        let mut i: usize = 0;
        while i < self.entries.len()
            invariant
                self.wf(),
                self@ == old(self)@,
                i <= self@.len(),
                forall|k: int| 0 <= k < i ==> (#[trigger] self@[k]).id != id,
            decreases self@.len() - i,
        {
            if self.entries[i].id == id {
                proof {
                    lemma_unique_index(self@, i as int);
                }
                let p = self.take_at(i);
                return Some(p);
            }
            i = i + 1;
        }
        None
    }

    /// Removes the entry with this ID if its deadline is at or before `now`,
    /// and returns its ID with the `Timeout` outcome.
    pub fn expire(&mut self, id: u16, now: u64) -> (r: Option<(u16, ProtoErrorKind)>)
        requires
            old(self).wf(),
        ensures
            final(self).wf(),
            forall|i: int|
                0 <= i < old(self)@.len() && (#[trigger] old(self)@[i]).id == id ==> if old(self)@[i].deadline <= now {
                    &&& r == Some((id, ProtoErrorKind::Timeout))
                    &&& final(self)@ == old(self)@.remove(i)
                } else {
                    r is None && final(self)@ == old(self)@
                },
            !has_id(old(self)@, id) ==> r is None && final(self)@ == old(self)@,
            r is Some ==> !has_id(final(self)@, id),
    {
        let mut i: usize = 0;
        while i < self.entries.len()
            invariant
                self.wf(),
                self@ == old(self)@,
                i <= self@.len(),
                forall|k: int| 0 <= k < i ==> (#[trigger] self@[k]).id != id,
            decreases self@.len() - i,
        {
            if self.entries[i].id == id {
                proof {
                    lemma_unique_index(self@, i as int);
                    lemma_removed_id_gone(self@, i as int);
                }
                if self.entries[i].deadline <= now {
                    let _ = self.take_at(i);
                    return Some((id, ProtoErrorKind::Timeout));
                }
                return None;
            }
            i = i + 1;
        }
        None
    }

    /// The IDs of the entries whose deadline is at or before `now`, in table
    /// order; each is then passed to `expire`.
    pub fn due_ids(&self, now: u64) -> (r: Vec<u16>)
        ensures
            forall|i: int| 0 <= i < r@.len() ==> due_with_id(self@, #[trigger] r@[i], now),
            forall|k: int| 0 <= k < self@.len() && (#[trigger] self@[k]).deadline <= now ==> r@.contains(self@[k].id),
    {
        let mut r: Vec<u16> = Vec::new();
        let mut i: usize = 0;
        while i < self.entries.len()
            invariant
                i <= self@.len(),
                forall|j: int| 0 <= j < r@.len() ==> due_with_id(self@, #[trigger] r@[j], now),
                forall|k: int| 0 <= k < i && (#[trigger] self@[k]).deadline <= now ==> r@.contains(self@[k].id),
            decreases self@.len() - i,
        {
            if self.entries[i].deadline <= now {
                let ghost r0 = r@;
                r.push(self.entries[i].id);
                proof {
                    assert(r@[r@.len() - 1] == self@[i as int].id);
                    assert forall|k: int| 0 <= k <= i && (#[trigger] self@[k]).deadline <= now implies r@.contains(self@[k].id) by {
                        if k < i {
                            assert(r0.contains(self@[k].id));
                            let j = choose|j: int| 0 <= j < r0.len() && r0[j] == self@[k].id;
                            assert(r@[j] == self@[k].id);
                        } else {
                            assert(r@[r@.len() - 1] == self@[k].id);
                        }
                    }
                    assert forall|j: int| 0 <= j < r@.len() implies due_with_id(self@, #[trigger] r@[j], now) by {
                        if j < r0.len() {
                            assert(r@[j] == r0[j]);
                        } else {
                            assert(self@[i as int].id == r@[j]);
                            assert(due_with_id(self@, r@[j], now));
                        }
                    }
                }
            }
            i = i + 1;
        }
        r
    }

    /// On teardown of the connection: every outstanding entry is resolved
    /// with `reason`, in table order, and the table is left empty.
    pub fn drain_all(&mut self, reason: ProtoErrorKind) -> (r: Vec<(u16, ProtoErrorKind)>)
        requires
            old(self).wf(),
        ensures
            final(self).wf(),
            final(self)@ == Seq::<PendingView>::empty(),
            r@ == old(self)@.map_values(|p: PendingView| (p.id, reason)),
    {
        let mut r: Vec<(u16, ProtoErrorKind)> = Vec::new();
        let mut i: usize = 0;
        while i < self.entries.len()
            invariant
                self@ == old(self)@,
                i <= self@.len(),
                r@ == self@.take(i as int).map_values(|p: PendingView| (p.id, reason)),
            decreases self@.len() - i,
        {
            r.push((self.entries[i].id, reason));
            i = i + 1;
            assert(r@ =~= self@.take(i as int).map_values(|p: PendingView| (p.id, reason)));
        }
        assert(self@.take(i as int) =~= self@);
        self.entries.clear();
        assert(self@ =~= Seq::<PendingView>::empty());
        r
    }
}

/// With unique IDs, the entry at `i` is the only one with its ID.
pub proof fn lemma_unique_index(s: Seq<PendingView>, i: int)
    requires
        ids_unique(s),
        0 <= i < s.len(),
    ensures
        forall|k: int| 0 <= k < s.len() && (#[trigger] s[k]).id == s[i].id ==> k == i,
{
}

/// With unique IDs, removing the entry at `i` leaves no entry with its ID.
pub proof fn lemma_removed_id_gone(s: Seq<PendingView>, i: int)
    requires
        ids_unique(s),
        0 <= i < s.len(),
    ensures
        !has_id(s.remove(i), s[i].id),
        ids_unique(s.remove(i)),
{
    assert forall|k: int| 0 <= k < s.remove(i).len() implies (#[trigger] s.remove(i)[k]).id != s[i].id by {
        if k < i {
            assert(s.remove(i)[k] == s[k]);
        } else {
            assert(s.remove(i)[k] == s[k + 1]);
        }
    }
}

/// Some entry has this ID and a deadline at or before `now`.
pub open spec fn due_with_id(s: Seq<PendingView>, id: u16, now: u64) -> bool {
    exists|k: int| 0 <= k < s.len() && (#[trigger] s[k]).id == id && s[k].deadline <= now
}

/// The `k`-th ID probed from `candidate`, wrapping past the largest.
pub open spec fn probe(candidate: u16, k: int) -> u16 {
    ((candidate as int + k) % 0x10000) as u16
}

/// Of two pending entries with different IDs and the same question, a
/// response that answers the first does not answer the second, and the
/// second is still pending once the first is removed.
pub proof fn lemma_response_resolves_only_its_id(
    s: Seq<PendingView>,
    i: int,
    j: int,
    id: u16,
    qs: Seq<QuestionView>,
)
    requires
        ids_unique(s),
        0 <= i < s.len(),
        0 <= j < s.len(),
        s[i].id != s[j].id,
        s[i].question == s[j].question,
        answers(id, qs, s[i]),
    ensures
        !answers(id, qs, s[j]),
        has_id(s.remove(i), s[j].id),
{
    let k = if j < i { j } else { j - 1 };
    assert(s.remove(i)[k] == s[j]);
}

/// A response whose ID is pending but whose question section does not match
/// that entry's question answers no entry at all: matching it resolves
/// nothing and leaves the table as it was.
pub proof fn lemma_spoofed_response_answers_nothing(
    s: Seq<PendingView>,
    i: int,
    id: u16,
    qs: Seq<QuestionView>,
)
    requires
        ids_unique(s),
        0 <= i < s.len(),
        s[i].id == id,
        !(qs.len() == 1 && question_matches(qs[0], s[i].question)),
    ensures
        forall|k: int| 0 <= k < s.len() ==> !answers(id, qs, #[trigger] s[k]),
{
    lemma_unique_index(s, i);
}

fn vec_contains(v: &Vec<u16>, x: u16) -> (r: bool)
    ensures
        r == v@.contains(x),
{
    let mut i: usize = 0;
    while i < v.len()
        invariant
            i <= v@.len(),
            forall|k: int| 0 <= k < i ==> v@[k] != x,
        decreases v@.len() - i,
    {
        if v[i] == x {
            return true;
        }
        i = i + 1;
    }
    false
}

} // verus!
