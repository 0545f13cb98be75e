use vstd::prelude::*;
use vstd::slice::{slice_subrange, slice_to_vec};

use crate::error::ProtoErrorKind;

verus! {

/// Longest label, in bytes.
pub const MAX_LABEL_LEN: usize = 63;

/// Longest name on the wire, length bytes and terminator included.
pub const MAX_NAME_WIRE_LEN: usize = 255;

/// A label on the wire: its length byte, then its bytes.
pub open spec fn label_bytes(l: Seq<u8>) -> Seq<u8> {
    seq![l.len() as u8] + l
}

/// The labels of a name on the wire, without the terminator.
pub open spec fn labels_bytes(ls: Seq<Seq<u8>>) -> Seq<u8>
    decreases ls.len(),
{
    if ls.len() == 0 {
        Seq::empty()
    } else {
        label_bytes(ls[0]) + labels_bytes(ls.drop_first())
    }
}

/// A name written out uncompressed: its labels, then a zero-length label.
pub open spec fn name_bytes(ls: Seq<Seq<u8>>) -> Seq<u8> {
    labels_bytes(ls) + seq![0u8]
}

pub open spec fn label_ok(l: Seq<u8>) -> bool {
    1 <= l.len() <= MAX_LABEL_LEN
}

/// Every label holds 1 to 63 bytes and the name takes at most 255 bytes on the wire.
pub open spec fn name_wf(ls: Seq<Seq<u8>>) -> bool {
    &&& forall|i: int| 0 <= i < ls.len() ==> label_ok(#[trigger] ls[i])
    &&& name_bytes(ls).len() <= MAX_NAME_WIRE_LEN
}

/// Where a compression pointer at `pos` leads: its low 14 bits.
pub open spec fn pointer_target(msg: Seq<u8>, pos: int) -> int {
    (msg[pos] as int - 192) * 256 + msg[pos + 1] as int
}

/// The labels read from `pos` in `msg`, following compression pointers.
/// `start` is where the current run of labels began: a pointer must lead
/// strictly before it, so that every jump goes backwards past all that was
/// read so far and no chain of pointers can revisit an offset.
pub open spec fn parse_labels(msg: Seq<u8>, start: int, pos: int) -> Option<Seq<Seq<u8>>>
    decreases start, msg.len() - pos,
{
    if start < 0 || pos < 0 || pos >= msg.len() {
        None
    } else if msg[pos] == 0 {
        Some(Seq::empty())
    } else if msg[pos] >= 192 {
        if pos + 1 >= msg.len() {
            None
        } else if pointer_target(msg, pos) >= start {
            None
        } else {
            parse_labels(msg, pointer_target(msg, pos), pointer_target(msg, pos))
        }
    } else if msg[pos] >= 64 {
        None
    } else if pos + 1 + msg[pos] as int > msg.len() {
        None
    } else {
        match parse_labels(msg, start, pos + 1 + msg[pos] as int) {
            Some(rest) => Some(seq![msg.subrange(pos + 1, pos + 1 + msg[pos] as int)] + rest),
            None => None,
        }
    }
}

/// The offset just past a name that starts at `pos`: past its terminator, or
/// past the first pointer of its own run.
pub open spec fn name_end(msg: Seq<u8>, pos: int) -> int
    decreases msg.len() - pos,
{
    if pos < 0 || pos >= msg.len() {
        pos
    } else if msg[pos] == 0 {
        pos + 1
    } else if msg[pos] >= 192 {
        pos + 2
    } else if msg[pos] >= 64 || pos + 1 + msg[pos] as int > msg.len() {
        pos
    } else {
        name_end(msg, pos + 1 + msg[pos] as int)
    }
}

/// A name read at `pos`: its labels and the offset just past it, or `None`
/// where the bytes there are not a well-formed name.
pub open spec fn parse_name(msg: Seq<u8>, pos: int) -> Option<(Seq<Seq<u8>>, int)> {
    match parse_labels(msg, pos, pos) {
        Some(ls) => if name_bytes(ls).len() <= MAX_NAME_WIRE_LEN {
            Some((ls, name_end(msg, pos)))
        } else {
            None
        },
        None => None,
    }
}

pub open spec fn ascii_lower(b: u8) -> u8 {
    if 65 <= b <= 90 { (b + 32) as u8 } else { b }
}

/// Two labels are equal when they agree byte for byte, ASCII letters compared
/// without regard to case.
pub open spec fn label_eq_ci(a: Seq<u8>, b: Seq<u8>) -> bool {
    &&& a.len() == b.len()
    &&& forall|i: int| 0 <= i < a.len() ==> ascii_lower(#[trigger] a[i]) == ascii_lower(b[i])
}

pub open spec fn name_eq_ci(a: Seq<Seq<u8>>, b: Seq<Seq<u8>>) -> bool {
    &&& a.len() == b.len()
    &&& forall|i: int| 0 <= i < a.len() ==> label_eq_ci(#[trigger] a[i], b[i])
}

pub open spec fn labels_view(v: Seq<Vec<u8>>) -> Seq<Seq<u8>> {
    v.map_values(|l: Vec<u8>| l@)
}

/// A domain name: an ordered sequence of labels.
pub struct Name {
    labels: Vec<Vec<u8>>,
}

impl View for Name {
    type V = Seq<Seq<u8>>;

    closed spec fn view(&self) -> Seq<Seq<u8>> {
        labels_view(self.labels@)
    }
}

impl Clone for Name {
    fn clone(&self) -> (r: Name)
        ensures
            r@ == self@,
    {
        let mut labels: Vec<Vec<u8>> = Vec::new();
        let mut i: usize = 0;
        while i < self.labels.len()
            invariant
                i <= self.labels@.len(),
                labels_view(labels@) == labels_view(self.labels@).take(i as int),
            decreases self.labels@.len() - i,
        {
            let l = self.labels[i].clone();
            assert(l@ == labels_view(self.labels@)[i as int]);
            proof {
                lemma_labels_view_push(labels@, l);
            }
            labels.push(l);
            i = i + 1;
            assert(labels_view(labels@) =~= labels_view(self.labels@).take(i as int));
        }
        assert(labels_view(self.labels@).take(i as int) =~= labels_view(self.labels@));
        Name { labels }
    }
}

pub proof fn lemma_labels_view_push(v: Seq<Vec<u8>>, l: Vec<u8>)
    ensures
        labels_view(v.push(l)) == labels_view(v).push(l@),
{
    assert(labels_view(v.push(l)) =~= labels_view(v).push(l@));
}

pub proof fn lemma_labels_bytes_append(a: Seq<Seq<u8>>, b: Seq<Seq<u8>>)
    ensures
        labels_bytes(a + b) == labels_bytes(a) + labels_bytes(b),
    decreases a.len(),
{
    if a.len() == 0 {
        assert(a + b =~= b);
        assert(labels_bytes(a) + labels_bytes(b) =~= labels_bytes(b));
    } else {
        assert((a + b).drop_first() =~= a.drop_first() + b);
        lemma_labels_bytes_append(a.drop_first(), b);
        assert(labels_bytes(a + b) =~= labels_bytes(a) + labels_bytes(b));
    }
}

proof fn lemma_labels_bytes_push(a: Seq<Seq<u8>>, l: Seq<u8>)
    ensures
        labels_bytes(a.push(l)) == labels_bytes(a) + label_bytes(l),
{
    lemma_labels_bytes_append(a, seq![l]);
    assert(a.push(l) =~= a + seq![l]);
    assert(seq![l].drop_first() =~= Seq::<Seq<u8>>::empty());
    assert(seq![l][0] == l);
    assert(labels_bytes(Seq::<Seq<u8>>::empty()) =~= Seq::<u8>::empty());
    assert(labels_bytes(seq![l]) =~= label_bytes(l));
}

fn labels_valid(labels: &Vec<Vec<u8>>) -> (r: bool)
    ensures
        r == name_wf(labels_view(labels@)),
{
    let ghost lv = labels_view(labels@);
    let mut total: usize = 1;
    let mut i: usize = 0;
    while i < labels.len()
        invariant
            i <= labels@.len(),
            lv == labels_view(labels@),
            total == labels_bytes(lv.take(i as int)).len() + 1,
            total <= MAX_NAME_WIRE_LEN,
            forall|j: int| 0 <= j < i ==> label_ok(#[trigger] lv[j]),
        decreases labels@.len() - i,
    {
        let n = labels[i].len();
        if n == 0 || n > MAX_LABEL_LEN {
            assert(!label_ok(lv[i as int]));
            return false;
        }
        proof {
            assert(lv.take(i as int + 1) =~= lv.take(i as int).push(lv[i as int]));
            lemma_labels_bytes_push(lv.take(i as int), lv[i as int]);
        }
        if n + 1 > MAX_NAME_WIRE_LEN - total {
            proof {
                assert(lv =~= lv.take(i as int + 1) + lv.skip(i as int + 1));
                lemma_labels_bytes_append(lv.take(i as int + 1), lv.skip(i as int + 1));
            }
            return false;
        }
        total = total + n + 1;
        i = i + 1;
    }
    assert(lv.take(i as int) =~= lv);
    true
}

impl Name {
    /// The root name, which has no labels.
    pub fn root() -> (r: Name)
        ensures
            r@ == Seq::<Seq<u8>>::empty(),
    {
        let r = Name { labels: Vec::new() };
        assert(r@ =~= Seq::<Seq<u8>>::empty());
        r
    }

    /// Builds a name from its labels; fails with `MessageFormat` where a label
    /// is empty or longer than 63 bytes, or the name is longer than 255 bytes
    /// on the wire.
    pub fn from_labels(labels: Vec<Vec<u8>>) -> (r: Result<Name, ProtoErrorKind>)
        ensures
            name_wf(labels_view(labels@)) ==> (r matches Ok(n) && n@ == labels_view(labels@)),
            !name_wf(labels_view(labels@)) ==> r == Err::<Name, ProtoErrorKind>(
                ProtoErrorKind::MessageFormat,
            ),
    {
        if labels_valid(&labels) {
            Ok(Name { labels })
        } else {
            Err(ProtoErrorKind::MessageFormat)
        }
    }

    /// Whether the name can be written: labels of 1 to 63 bytes, at most 255
    /// bytes on the wire.
    pub fn is_valid(&self) -> (r: bool)
        ensures
            r == name_wf(self@),
    {
        labels_valid(&self.labels)
    }

    /// The labels of the name, in order.
    pub fn labels(&self) -> (r: &Vec<Vec<u8>>)
        ensures
            labels_view(r@) == self@,
    {
        &self.labels
    }

    /// Appends this name, uncompressed, to `buf`.
    pub fn emit(&self, buf: &mut Vec<u8>)
        requires
            name_wf(self@),
        ensures
            final(buf)@ == old(buf)@ + name_bytes(self@),
    {
        let ghost b0 = buf@;
        let mut i: usize = 0;
        while i < self.labels.len()
            invariant
                i <= self.labels@.len(),
                name_wf(self@),
                buf@ == b0 + labels_bytes(self@.take(i as int)),
            decreases self.labels@.len() - i,
        {
            let l = &self.labels[i];
            assert(label_ok(self@[i as int]));
            buf.push(l.len() as u8);
            let mut j: usize = 0;
            while j < l.len()
                invariant
                    j <= l@.len(),
                    l@ == self@[i as int],
                    buf@ == b0 + labels_bytes(self@.take(i as int)) + seq![l@.len() as u8] + l@.take(j as int),
                decreases l@.len() - j,
            {
                buf.push(l[j]);
                j = j + 1;
                assert(l@.take(j as int) =~= l@.take(j as int - 1).push(l@[j as int - 1]));
            }
            proof {
                assert(self@.take(i as int + 1) =~= self@.take(i as int).push(self@[i as int]));
                lemma_labels_bytes_push(self@.take(i as int), self@[i as int]);
                assert(l@.take(j as int) =~= l@);
            }
            i = i + 1;
            assert(buf@ =~= b0 + labels_bytes(self@.take(i as int)));
        }
        buf.push(0u8);
        assert(self@.take(i as int) =~= self@);
        assert(buf@ =~= b0 + name_bytes(self@));
    }
}


pub open spec fn prepend_labels(a: Seq<Seq<u8>>, o: Option<Seq<Seq<u8>>>) -> Option<Seq<Seq<u8>>> {
    match o {
        Some(x) => Some(a + x),
        None => None,
    }
}

/// Reads the name that starts at `pos` in `msg`, following compression
/// pointers, and returns it with the offset just past it. Fails with
/// `MessageFormat` exactly where `parse_name` finds no well-formed name.
pub fn decode_name(msg: &[u8], pos: usize) -> (r: Result<(Name, usize), ProtoErrorKind>)
    ensures
        match parse_name(msg@, pos as int) {
            Some((ls, e)) => r is Ok && r->Ok_0.0@ == ls && r->Ok_0.1 == e,
            None => r is Err && r->Err_0 == ProtoErrorKind::MessageFormat,
        },
        r is Ok ==> pos < r->Ok_0.1 <= msg@.len(),
{
    let ghost m = msg@;
    let ghost p = pos as int;
    let mut labels: Vec<Vec<u8>> = Vec::new();
    let mut start: usize = pos;
    let mut cur: usize = pos;
    let mut end: usize = 0;
    let mut jumped: bool = false;
    let mut total: usize = 1;
    assert(labels_view(labels@) =~= Seq::<Seq<u8>>::empty());
    assert(parse_labels(m, p, p) == prepend_labels(labels_view(labels@), parse_labels(m, p, p))) by {
        match parse_labels(m, p, p) {
            Some(x) => { assert(labels_view(labels@) + x =~= x); },
            None => {},
        }
    }
    loop
        invariant
            m == msg@,
            p == pos as int,
            start <= pos,
            parse_labels(m, p, p) == prepend_labels(labels_view(labels@), parse_labels(m, start as int, cur as int)),
            !jumped ==> start == pos && cur >= pos && name_end(m, p) == name_end(m, cur as int),
            jumped ==> name_end(m, p) == end as int && pos < end <= msg@.len(),
            total == labels_bytes(labels_view(labels@)).len() + 1,
            total <= MAX_NAME_WIRE_LEN,
        decreases start, msg@.len() - cur,
    {
        let ghost lv = labels_view(labels@);
        if cur >= msg.len() {
            return Err(ProtoErrorKind::MessageFormat);
        }
        let b = msg[cur];
        if b == 0 {
            let e = if jumped { end } else { cur + 1 };
            assert(lv + Seq::<Seq<u8>>::empty() =~= lv);
            return Ok((Name { labels }, e));
        } else if b >= 192 {
            if cur + 1 >= msg.len() {
                return Err(ProtoErrorKind::MessageFormat);
            }
            let t: usize = ((b - 192) as usize) * 256 + msg[cur + 1] as usize;
            assert(t as int == pointer_target(m, cur as int));
            if t >= start {
                return Err(ProtoErrorKind::MessageFormat);
            }
            if !jumped {
                end = cur + 2;
                jumped = true;
            }
            start = t;
            cur = t;
        } else if b >= 64 {
            return Err(ProtoErrorKind::MessageFormat);
        } else {
            let n = b as usize;
            if n > msg.len() - cur - 1 {
                return Err(ProtoErrorKind::MessageFormat);
            }
            let ghost label = m.subrange(cur as int + 1, cur as int + 1 + n);
            proof {
                lemma_labels_bytes_push(lv, label);
            }
            if n + 1 > MAX_NAME_WIRE_LEN - total {
                proof {
                    match parse_labels(m, start as int, cur as int + 1 + n) {
                        Some(rest) => {
                            assert(lv + (seq![label] + rest) =~= lv.push(label) + rest);
                            lemma_labels_bytes_append(lv.push(label), rest);
                        },
                        None => {},
                    }
                }
                return Err(ProtoErrorKind::MessageFormat);
            }
            let l = slice_to_vec(slice_subrange(msg, cur + 1, cur + 1 + n));
            assert(l@ == label);
            proof {
                lemma_labels_view_push(labels@, l);
                match parse_labels(m, start as int, cur as int + 1 + n) {
                    Some(rest) => {
                        assert(lv + (seq![label] + rest) =~= lv.push(label) + rest);
                    },
                    None => {},
                }
            }
            labels.push(l);
            total = total + n + 1;
            cur = cur + 1 + n;
        }
    }
}

/// A name written uncompressed at `p` in `msg` reads back as itself, and
/// ends where its bytes end.
proof fn lemma_parse_labels_written(msg: Seq<u8>, start: int, p: int, ls: Seq<Seq<u8>>)
    requires
        0 <= start,
        0 <= p,
        p + name_bytes(ls).len() <= msg.len(),
        msg.subrange(p, p + name_bytes(ls).len()) == name_bytes(ls),
        forall|i: int| 0 <= i < ls.len() ==> label_ok(#[trigger] ls[i]),
    ensures
        parse_labels(msg, start, p) == Some(ls),
        name_end(msg, p) == p + name_bytes(ls).len(),
    decreases ls.len(),
{
    let nb = name_bytes(ls);
    assert(msg[p] == nb[0]);
    if ls.len() == 0 {
        assert(nb =~= seq![0u8]);
    } else {
        let l = ls[0];
        let tail = ls.drop_first();
        assert(label_ok(l));
        assert(nb =~= seq![l.len() as u8] + l + name_bytes(tail));
        let q = p + 1 + l.len();
        assert forall|i: int| 0 <= i < tail.len() implies label_ok(#[trigger] tail[i]) by {
            assert(tail[i] == ls[i + 1]);
        }
        assert(msg.subrange(q, q + name_bytes(tail).len()) =~= name_bytes(tail)) by {
            assert forall|k: int| 0 <= k < name_bytes(tail).len() implies
                msg.subrange(q, q + name_bytes(tail).len())[k] == name_bytes(tail)[k] by {
                assert(msg[q + k] == msg.subrange(p, p + nb.len())[1 + l.len() + k]);
            }
        }
        lemma_parse_labels_written(msg, start, q, tail);
        assert(msg.subrange(p + 1, q) =~= l) by {
            assert forall|k: int| 0 <= k < l.len() implies msg.subrange(p + 1, q)[k] == l[k] by {
                assert(msg[p + 1 + k] == msg.subrange(p, p + nb.len())[1 + k]);
            }
        }
        assert(msg[p] as int == l.len());
        assert(seq![l] + tail =~= ls);
    }
}

/// A well-formed name written uncompressed at `p` is read back by `parse_name`.
pub proof fn lemma_parse_name_written(msg: Seq<u8>, p: int, ls: Seq<Seq<u8>>)
    requires
        0 <= p,
        name_wf(ls),
        p + name_bytes(ls).len() <= msg.len(),
        msg.subrange(p, p + name_bytes(ls).len()) == name_bytes(ls),
    ensures
        parse_name(msg, p) == Some((ls, p + name_bytes(ls).len())),
{
    lemma_parse_labels_written(msg, p, p, ls);
}


/// `a` is a prefix of `b`.
pub open spec fn extends(a: Seq<u8>, b: Seq<u8>) -> bool {
    &&& a.len() <= b.len()
    &&& forall|i: int| 0 <= i < a.len() ==> #[trigger] b[i] == a[i]
}

/// Bytes appended after a name that reads well do not change how it reads.
pub proof fn lemma_parse_labels_extends(a: Seq<u8>, b: Seq<u8>, start: int, pos: int)
    requires
        extends(a, b),
        parse_labels(a, start, pos) is Some,
    ensures
        parse_labels(b, start, pos) == parse_labels(a, start, pos),
        name_end(b, pos) == name_end(a, pos),
        pos < name_end(a, pos) <= a.len(),
    decreases start, a.len() - pos,
{
    assert(b[pos] == a[pos]);
    if a[pos] == 0 {
    } else if a[pos] >= 192 {
        assert(b[pos + 1] == a[pos + 1]);
        let t = pointer_target(a, pos);
        lemma_parse_labels_extends(a, b, t, t);
    } else {
        let n = a[pos] as int;
        lemma_parse_labels_extends(a, b, start, pos + 1 + n);
        assert(b.subrange(pos + 1, pos + 1 + n) =~= a.subrange(pos + 1, pos + 1 + n));
    }
}

pub proof fn lemma_parse_name_extends(a: Seq<u8>, b: Seq<u8>, pos: int)
    requires
        extends(a, b),
        parse_name(a, pos) is Some,
    ensures
        parse_name(b, pos) == parse_name(a, pos),
        pos < parse_name(a, pos).unwrap().1 <= a.len(),
{
    lemma_parse_labels_extends(a, b, pos, pos);
}


/// Largest offset that a compression pointer can hold.
pub const MAX_POINTER_OFFSET: usize = 0x3fff;

/// Each remembered name reads back, uncompressed or not, at its offset,
/// which lies before the end of `buf` and fits a pointer.
pub open spec fn table_ok(table: Seq<(Name, u16)>, buf: Seq<u8>) -> bool {
    forall|i: int|
        0 <= i < table.len() ==> {
            let (n, o) = #[trigger] table[i];
            &&& (o as int) < buf.len()
            &&& o <= MAX_POINTER_OFFSET
            &&& parse_labels(buf, o as int, o as int) == Some(n@)
            &&& n@.len() > 0
        }
}

/// Some entry of `table` is the name `n`.
pub open spec fn remembers(table: Seq<(Name, u16)>, n: Seq<Seq<u8>>) -> bool {
    exists|i: int| 0 <= i < table.len() && (#[trigger] table[i]).0@ == n
}

/// A name takes at least one byte, and at least three unless it is the root.
pub proof fn lemma_name_bytes_len(ls: Seq<Seq<u8>>)
    requires
        name_wf(ls),
    ensures
        name_bytes(ls).len() >= 1,
        ls.len() > 0 ==> name_bytes(ls).len() >= 3,
{
    if ls.len() > 0 {
        assert(label_ok(ls[0]));
    }
}

/// Whether two names have the same labels, byte for byte.
pub fn same_labels(a: &Name, b: &Name) -> (r: bool)
    ensures
        r == (a@ == b@),
{
    if a.labels.len() != b.labels.len() {
        assert(a@.len() != b@.len());
        return false;
    }
    let mut i: usize = 0;
    while i < a.labels.len()
        invariant
            i <= a.labels@.len(),
            a.labels@.len() == b.labels@.len(),
            forall|k: int| 0 <= k < i ==> a@[k] == b@[k],
        decreases a.labels@.len() - i,
    {
        let x = &a.labels[i];
        let y = &b.labels[i];
        assert(x@ == a@[i as int] && y@ == b@[i as int]);
        if x.len() != y.len() {
            assert(a@[i as int].len() != b@[i as int].len());
            return false;
        }
        let mut j: usize = 0;
        while j < x.len()
            invariant
                j <= x@.len(),
                x@.len() == y@.len(),
                x@ == a@[i as int],
                y@ == b@[i as int],
                forall|k: int| 0 <= k < j ==> x@[k] == y@[k],
            decreases x@.len() - j,
        {
            if x[j] != y[j] {
                assert(a@[i as int][j as int] != b@[i as int][j as int]);
                return false;
            }
            j = j + 1;
        }
        assert(x@ =~= y@);
        i = i + 1;
    }
    assert(a@ =~= b@);
    true
}

/// Appends `name` to `buf`, as a pointer to an earlier copy of it where
/// `table` remembers one, else uncompressed; a name written uncompressed at
/// an offset that a pointer can hold is remembered.
pub fn emit_compressed(name: &Name, buf: &mut Vec<u8>, table: &mut Vec<(Name, u16)>)
    requires
        name_wf(name@),
        table_ok(old(table)@, old(buf)@),
    ensures
        extends(old(buf)@, final(buf)@),
        table_ok(final(table)@, final(buf)@),
        parse_name(final(buf)@, old(buf)@.len() as int) == Some((name@, final(buf)@.len() as int)),
        final(buf)@ == old(buf)@ + name_bytes(name@) || final(buf)@.len() == old(buf)@.len() + 2,
        final(buf)@.len() <= old(buf)@.len() + name_bytes(name@).len(),
        remembers(old(table)@, name@) ==> final(buf)@.len() == old(buf)@.len() + 2
            && final(buf)@.len() < old(buf)@.len() + name_bytes(name@).len(),
        forall|n: Seq<Seq<u8>>| remembers(old(table)@, n) ==> #[trigger] remembers(final(table)@, n),
        name@.len() > 0 && old(buf)@.len() <= MAX_POINTER_OFFSET ==> remembers(final(table)@, name@),
{
    proof {
        lemma_name_bytes_len(name@);
    }
    let ghost b0 = buf@;
    let start = buf.len();
    let mut i: usize = 0;
    while i < table.len()
        invariant
            i <= table@.len(),
            forall|k: int| 0 <= k < i ==> (#[trigger] table@[k]).0@ != name@,
            buf@ == b0,
            b0 == old(buf)@,
            table@ == old(table)@,
            start == buf@.len(),
            name_wf(name@),
            table_ok(table@, buf@),
        decreases table@.len() - i,
    {
        if same_labels(&table[i].0, name) {
            let o = table[i].1;
            proof {
                assert(table_ok(table@, buf@));
                let (n, oo) = table@[i as int];
                assert(oo == o && (o as int) < start);
                assert(n@.len() > 0);
            }
            buf.push((192 + o / 256) as u8);
            buf.push((o % 256) as u8);
            proof {
                let b1 = buf@;
                assert(extends(b0, b1));
                assert(b1[start as int] == (192 + o / 256) as u8);
                assert(b1[start as int + 1] == (o % 256) as u8);
                assert(pointer_target(b1, start as int) == o as int);
                lemma_parse_labels_extends(b0, b1, o as int, o as int);
                assert(parse_labels(b1, start as int, start as int) == Some(name@));
                assert(name_end(b1, start as int) == start + 2);
                assert forall|k: int| 0 <= k < table@.len() implies {
                    let (n, oo) = #[trigger] table@[k];
                    &&& (oo as int) < b1.len()
                    &&& oo <= MAX_POINTER_OFFSET
                    &&& parse_labels(b1, oo as int, oo as int) == Some(n@)
                    &&& n@.len() > 0
                } by {
                    let (n, oo) = table@[k];
                    lemma_parse_labels_extends(b0, b1, oo as int, oo as int);
                }
            }
            return;
        }
        i = i + 1;
    }
    name.emit(buf);
    proof {
        let b1 = buf@;
        assert(extends(b0, b1));
        assert(b1.subrange(start as int, b1.len() as int) =~= name_bytes(name@));
        lemma_parse_name_written(b1, start as int, name@);
        assert forall|k: int| 0 <= k < table@.len() implies {
            let (n, oo) = #[trigger] table@[k];
            &&& (oo as int) < b1.len()
            &&& oo <= MAX_POINTER_OFFSET
            &&& parse_labels(b1, oo as int, oo as int) == Some(n@)
            &&& n@.len() > 0
        } by {
            let (n, oo) = table@[k];
            lemma_parse_labels_extends(b0, b1, oo as int, oo as int);
        }
    }
    if start <= MAX_POINTER_OFFSET && name.labels.len() > 0 {
        let copy = name.clone();
        let ghost t0 = table@;
        table.push((copy, start as u16));
        proof {
            lemma_parse_labels_written(buf@, start as int, start as int, name@);
            assert forall|k: int| 0 <= k < table@.len() implies {
                let (n, oo) = #[trigger] table@[k];
                &&& (oo as int) < buf@.len()
                &&& oo <= MAX_POINTER_OFFSET
                &&& parse_labels(buf@, oo as int, oo as int) == Some(n@)
                &&& n@.len() > 0
            } by {
                if k < table@.len() - 1 {
                    assert(table@[k] == old(table)@[k]);
                }
            }
            assert(table@[table@.len() - 1].0@ == name@);
            assert forall|n: Seq<Seq<u8>>| remembers(t0, n) implies #[trigger] remembers(table@, n) by {
                let i = choose|i: int| 0 <= i < t0.len() && (#[trigger] t0[i]).0@ == n;
                assert(table@[i] == t0[i]);
            }
        }
    }
}


fn lower(b: u8) -> (r: u8)
    ensures
        r == ascii_lower(b),
{
    if 65 <= b && b <= 90 { b + 32 } else { b }
}

/// Whether two names are equal under DNS rules: label by label, ASCII
/// letters compared without regard to case.
pub fn names_equal_ci(a: &Name, b: &Name) -> (r: bool)
    ensures
        r == name_eq_ci(a@, b@),
{
    if a.labels.len() != b.labels.len() {
        assert(a@.len() != b@.len());
        return false;
    }
    let mut i: usize = 0;
    while i < a.labels.len()
        invariant
            i <= a.labels@.len(),
            a.labels@.len() == b.labels@.len(),
            a@.len() == a.labels@.len(),
            b@.len() == b.labels@.len(),
            forall|k: int| 0 <= k < i ==> label_eq_ci(#[trigger] a@[k], b@[k]),
        decreases a.labels@.len() - i,
    {
        let x = &a.labels[i];
        let y = &b.labels[i];
        assert(x@ == a@[i as int] && y@ == b@[i as int]);
        if x.len() != y.len() {
            assert(!label_eq_ci(a@[i as int], b@[i as int]));
            return false;
        }
        let mut j: usize = 0;
        while j < x.len()
            invariant
                j <= x@.len(),
                x@.len() == y@.len(),
                i < a@.len(),
                i < b@.len(),
                x@ == a@[i as int],
                y@ == b@[i as int],
                forall|k: int| 0 <= k < j ==> ascii_lower(#[trigger] x@[k]) == ascii_lower(y@[k]),
            decreases x@.len() - j,
        {
            if lower(x[j]) != lower(y[j]) {
                assert(ascii_lower(a@[i as int][j as int]) != ascii_lower(b@[i as int][j as int]));
                assert(!label_eq_ci(a@[i as int], b@[i as int]));
                return false;
            }
            j = j + 1;
        }
        assert(label_eq_ci(a@[i as int], b@[i as int]));
        i = i + 1;
    }
    true
}


/// A name that begins with a compression pointer to itself or to any later
/// offset does not read: decoding it fails, and `decode_name` says so with
/// `MessageFormat` after reading two bytes.
pub proof fn lemma_self_or_forward_pointer_rejected(msg: Seq<u8>, pos: int)
    requires
        0 <= pos,
        pos + 1 < msg.len(),
        msg[pos] >= 192,
        pointer_target(msg, pos) >= pos,
    ensures
        parse_name(msg, pos) is None,
{
}

/// Wherever a pointer occurs in a run of labels, one that leads to the start
/// of the run or past it makes the run unreadable.
pub proof fn lemma_pointer_into_run_rejected(msg: Seq<u8>, start: int, pos: int)
    requires
        0 <= start <= pos,
        pos + 1 < msg.len(),
        msg[pos] >= 192,
        pointer_target(msg, pos) >= start,
    ensures
        parse_labels(msg, start, pos) is None,
{
}

} // verus!
