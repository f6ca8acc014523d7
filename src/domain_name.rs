use vstd::prelude::*;
use vstd::string::StringSliceAdditionalSpecFns;
use vstd::utf8::{valid_utf8, decode_utf8};

verus! {

pub open spec fn dot() -> u8 {
    46u8
}

/// Why a piece of wire-format data could not be read.
#[derive(Clone, Copy, PartialEq, Eq, Hash, Debug)]
pub enum WireError {
    /// The data ends before the value does.
    Truncated,
    /// A length or label byte that the format does not allow.
    Malformed,
    /// Bytes are left over after the value.
    TrailingBytes,
}

/// The text does not spell a domain name.
#[derive(Clone, Copy, PartialEq, Eq, Hash, Debug)]
pub struct InvalidDomainName;

/// The wire form of labels without the root label: each label after its length.
pub open spec fn labels_bytes(ls: Seq<Seq<u8>>) -> Seq<u8>
    decreases ls.len(),
{
    if ls.len() == 0 {
        Seq::empty()
    } else {
        labels_bytes(ls.drop_last()) + seq![ls.last().len() as u8] + ls.last()
    }
}

/// The wire form of a name: its labels, then the empty root label.
pub open spec fn name_wire(ls: Seq<Seq<u8>>) -> Seq<u8> {
    labels_bytes(ls) + seq![0u8]
}

/// Every label holds 1 to 63 bytes and the wire form is at most 255 bytes long.
pub open spec fn valid_labels(ls: Seq<Seq<u8>>) -> bool {
    &&& forall|i: int| 0 <= i < ls.len() ==> 1 <= (#[trigger] ls[i]).len() <= 63
    &&& name_wire(ls).len() <= 255
}

/// The pieces of `b` between dots, from position `i`, where the current piece
/// started at `start`.
pub open spec fn split_from(b: Seq<u8>, i: int, start: int) -> Seq<Seq<u8>>
    decreases b.len() - i,
{
    if i >= b.len() {
        seq![b.subrange(start, b.len() as int)]
    } else if b[i] == dot() {
        seq![b.subrange(start, i)] + split_from(b, i + 1, i + 1)
    } else {
        split_from(b, i + 1, start)
    }
}

/// The labels that the text `b` names, a final dot left out; `None` if it names none.
/// A lone dot is the root.
pub open spec fn name_from_text(b: Seq<u8>) -> Option<Seq<Seq<u8>>> {
    if b == seq![dot()] {
        Some(Seq::empty())
    } else if b.len() == 0 {
        None
    } else {
        let body = if b.last() == dot() { b.drop_last() } else { b };
        let ls = split_from(body, 0, 0);
        if valid_labels(ls) {
            Some(ls)
        } else {
            None
        }
    }
}

/// The labels of a wire-format name that starts at `p`, up to its root label, and
/// where it ends.
pub open spec fn decode_labels(b: Seq<u8>, p: int) -> Option<(Seq<Seq<u8>>, int)>
    decreases b.len() - p,
{
    if p < 0 || p >= b.len() {
        None
    } else if b[p] == 0 {
        Some((Seq::empty(), p + 1))
    } else if b[p] > 63 || p + 1 + b[p] > b.len() {
        None
    } else {
        match decode_labels(b, p + 1 + b[p]) {
            Some(x) => Some((seq![b.subrange(p + 1, p + 1 + b[p])] + x.0, x.1)),
            None => None,
        }
    }
}

/// The name at `p` of `b` and where it ends, if it is well formed and at most 255
/// bytes long.
pub open spec fn decode_name(b: Seq<u8>, p: int) -> Option<(Seq<Seq<u8>>, int)> {
    match decode_labels(b, p) {
        Some(x) => if x.1 - p <= 255 {
            Some(x)
        } else {
            None
        },
        None => None,
    }
}

/// Labels, each followed by a dot.
pub open spec fn dotted(ls: Seq<Seq<u8>>) -> Seq<u8>
    decreases ls.len(),
{
    if ls.len() == 0 {
        Seq::empty()
    } else {
        ls[0] + seq![dot()] + dotted(ls.skip(1))
    }
}

/// The text of a name, fully qualified: each label followed by a dot; the root is a
/// lone dot.
pub open spec fn name_text(ls: Seq<Seq<u8>>) -> Seq<u8> {
    if ls.len() == 0 {
        seq![dot()]
    } else {
        dotted(ls)
    }
}

/// No label holds a dot.
pub open spec fn labels_without_dots(ls: Seq<Seq<u8>>) -> bool {
    forall|i: int, j: int| 0 <= i < ls.len() && 0 <= j < ls[i].len() ==> #[trigger] ls[i][j] != dot()
}

proof fn lemma_dotted_push(ls: Seq<Seq<u8>>, l: Seq<u8>)
    ensures
        dotted(ls.push(l)) == dotted(ls) + l + seq![dot()],
    decreases ls.len(),
{
    let lp = ls.push(l);
    assert(lp[0] == if ls.len() == 0 { l } else { ls[0] });
    if ls.len() == 0 {
        assert(lp.skip(1) =~= Seq::<Seq<u8>>::empty());
        assert(dotted(lp.skip(1)) == Seq::<u8>::empty());
        assert(dotted(ls) == Seq::<u8>::empty());
        assert(dotted(ls.push(l)) =~= dotted(ls) + l + seq![dot()]);
    } else {
        lemma_dotted_push(ls.skip(1), l);
        assert(lp.skip(1) =~= ls.skip(1).push(l));
        assert(dotted(ls.push(l)) =~= dotted(ls) + l + seq![dot()]);
    }
}

proof fn lemma_split_skips_plain(b: Seq<u8>, i: int, start: int, j: int)
    requires
        0 <= i <= j <= b.len(),
        forall|k: int| i <= k < j ==> #[trigger] b[k] != dot(),
    ensures
        split_from(b, i, start) == split_from(b, j, start),
    decreases j - i,
{
    if i < j {
        lemma_split_skips_plain(b, i + 1, start, j);
    }
}

proof fn lemma_split_dotted(q: Seq<u8>, ls: Seq<Seq<u8>>)
    requires
        ls.len() > 0,
        labels_without_dots(ls),
    ensures
        split_from((q + dotted(ls)).drop_last(), q.len() as int, q.len() as int) == ls,
    decreases ls.len(),
{
    let l = ls[0];
    let o = q.len() as int;
    let b = (q + dotted(ls)).drop_last();
    let e = o + l.len();
    assert(ls.skip(1).len() == 0 ==> dotted(ls.skip(1)) =~= Seq::<u8>::empty());
    assert forall|k: int| o <= k < e implies #[trigger] b[k] != dot() by {
        assert(b[k] == ls[0][k - o]);
    }
    lemma_split_skips_plain(b, o, o, e);
    if ls.len() == 1 {
        assert(b =~= q + l);
        assert(b.subrange(o, b.len() as int) =~= l);
        assert(seq![l] =~= ls);
    } else {
        let q2 = q + l + seq![dot()];
        let tail = ls.skip(1);
        assert forall|i: int, j: int| 0 <= i < tail.len() && 0 <= j < tail[i].len() implies #[trigger] tail[i][j]
            != dot() by {
            assert(tail[i] == ls[i + 1]);
        }
        lemma_split_dotted(q2, tail);
        assert(tail.len() > 0 ==> dotted(tail).len() > 0) by {
            if tail.len() > 0 {
                assert(dotted(tail) =~= tail[0] + seq![dot()] + dotted(tail.skip(1)));
            }
        }
        assert((q2 + dotted(tail)).drop_last() =~= b);
        assert(b[e] == dot());
        assert(b.subrange(o, e) =~= l);
        assert(seq![l] + tail =~= ls);
    }
}

/// The text of valid labels without dots reads back as the same labels.
pub proof fn lemma_name_text_round_trip(ls: Seq<Seq<u8>>)
    requires
        valid_labels(ls),
        labels_without_dots(ls),
    ensures
        name_from_text(name_text(ls)) == Some(ls),
{
    if ls.len() > 0 {
        let b = dotted(ls);
        lemma_split_dotted(Seq::empty(), ls);
        assert(Seq::<u8>::empty() + b =~= b);
        assert(b =~= ls[0] + seq![dot()] + dotted(ls.skip(1)));
        assert(ls[0].len() >= 1);
        assert(b.len() >= 2);
        assert(b != seq![dot()]);
        assert(b.last() == dot()) by {
            lemma_dotted_push(ls.drop_last(), ls.last());
            assert(ls.drop_last().push(ls.last()) =~= ls);
        }
    }
}

/// Relies on `String::from_utf8`: it succeeds exactly on valid UTF-8, and the string
/// then holds the characters that the bytes encode.
#[verifier::external_body]
fn string_from_utf8(b: Vec<u8>) -> (r: Option<String>)
    ensures
        valid_utf8(b@) ==> r is Some && r->Some_0@ == decode_utf8(b@),
        !valid_utf8(b@) ==> r is None,
{
    String::from_utf8(b).ok()
}

/// A domain name, held as its labels: each of 1 to 63 bytes, at most 255 bytes in
/// wire form.
#[derive(PartialEq, Eq, Hash, Debug)]
pub struct CDomainName {
    labels: Vec<Vec<u8>>,
}

impl View for CDomainName {
    type V = Seq<Seq<u8>>;

    closed spec fn view(&self) -> Seq<Seq<u8>> {
        self.labels@.map_values(|l: Vec<u8>| l@)
    }
}

proof fn lemma_labels_bytes_push(ls: Seq<Seq<u8>>, l: Seq<u8>)
    ensures
        labels_bytes(ls.push(l)) == labels_bytes(ls) + seq![l.len() as u8] + l,
{
    assert(ls.push(l).drop_last() =~= ls);
}

/// The wire form read from the front: the first label, then the others.
proof fn lemma_labels_bytes_front(ls: Seq<Seq<u8>>)
    requires
        ls.len() > 0,
    ensures
        labels_bytes(ls) == seq![ls[0].len() as u8] + ls[0] + labels_bytes(ls.skip(1)),
    decreases ls.len(),
{
    if ls.len() == 1 {
        assert(ls.drop_last() =~= Seq::<Seq<u8>>::empty());
        assert(ls.skip(1) =~= Seq::<Seq<u8>>::empty());
        assert(labels_bytes(ls) =~= seq![ls[0].len() as u8] + ls[0] + labels_bytes(ls.skip(1)));
    } else {
        let d = ls.drop_last();
        lemma_labels_bytes_front(d);
        assert(d.skip(1) =~= ls.skip(1).drop_last());
        assert(ls.skip(1).last() == ls.last());
        assert(labels_bytes(ls) =~= seq![ls[0].len() as u8] + ls[0] + labels_bytes(ls.skip(1)));
    }
}

proof fn lemma_labels_bytes_len(ls: Seq<Seq<u8>>, k: int)
    requires
        0 <= k <= ls.len(),
    ensures
        labels_bytes(ls.take(k)).len() <= labels_bytes(ls).len(),
    decreases ls.len(),
{
    if k < ls.len() {
        lemma_labels_bytes_len(ls.drop_last(), k);
        assert(ls.drop_last().take(k) =~= ls.take(k));
    } else {
        assert(ls.take(k) =~= ls);
    }
}

/// Reading the wire form of valid labels, with anything before and after it, gives
/// back the labels and the position just after the root label.
pub proof fn lemma_decode_labels_of_wire(pre: Seq<u8>, ls: Seq<Seq<u8>>, rest: Seq<u8>)
    requires
        forall|i: int| 0 <= i < ls.len() ==> 1 <= (#[trigger] ls[i]).len() <= 63,
    ensures
        decode_labels(pre + name_wire(ls) + rest, pre.len() as int) == Some(
            (ls, (pre.len() + name_wire(ls).len()) as int),
        ),
    decreases ls.len(),
{
    let b = pre + name_wire(ls) + rest;
    let p = pre.len() as int;
    if ls.len() == 0 {
        assert(b[p] == 0);
    } else {
        lemma_labels_bytes_front(ls);
        let l = ls[0];
        let pre2 = pre + seq![l.len() as u8] + l;
        let tail = ls.skip(1);
        assert forall|i: int| 0 <= i < tail.len() implies 1 <= (#[trigger] tail[i]).len() <= 63 by {
            assert(tail[i] == ls[i + 1]);
        }
        lemma_decode_labels_of_wire(pre2, tail, rest);
        assert(b =~= pre2 + name_wire(tail) + rest);
        assert(b[p] == l.len() as u8);
        assert(b.subrange(p + 1, p + 1 + l.len()) =~= l);
        assert(seq![l] + tail =~= ls);
    }
}

/// What `decode_labels` reads has labels of 1 to 63 bytes, and its wire form is what
/// it spans.
proof fn lemma_decode_labels_valid(b: Seq<u8>, p: int)
    ensures
        match decode_labels(b, p) {
            Some(x) => (forall|i: int| 0 <= i < x.0.len() ==> 1 <= (#[trigger] x.0[i]).len() <= 63)
                && x.1 - p == name_wire(x.0).len(),
            None => true,
        },
    decreases b.len() - p,
{
    if decode_labels(b, p) is None {
    } else if b[p] != 0 {
        let n = b[p] as int;
        lemma_decode_labels_valid(b, p + 1 + n);
        let x = decode_labels(b, p + 1 + n).unwrap();
        let rest = x.0;
        let l = b.subrange(p + 1, p + 1 + n);
        let ls = seq![l] + rest;
        assert(decode_labels(b, p).unwrap().0 == ls);
        lemma_labels_bytes_front(ls);
        assert(ls.skip(1) =~= rest);
        assert forall|i: int| 0 <= i < ls.len() implies 1 <= (#[trigger] ls[i]).len() <= 63 by {
            if i > 0 {
                assert(ls[i] == rest[i - 1]);
            }
        }
    } else {
        assert(name_wire(Seq::<Seq<u8>>::empty()) =~= seq![0u8]);
    }
}

impl Clone for CDomainName {
    fn clone(&self) -> (r: Self)
        ensures
            r@ == self@,
    {
        proof {
            use_type_invariant(self);
        }
        let ghost ls = self@;
        let mut labels: Vec<Vec<u8>> = Vec::new();
        let mut i: usize = 0;
        while i < self.labels.len()
            invariant
                ls == self@,
                i <= self.labels@.len(),
                labels@.map_values(|l: Vec<u8>| l@) == ls.take(i as int),
            decreases self.labels.len() - i,
        {
            let c = self.labels[i].clone();
            assert(c@ =~= self.labels@[i as int]@);
            let ghost before = labels@.map_values(|l: Vec<u8>| l@);
            labels.push(c);
            assert(labels@.map_values(|l: Vec<u8>| l@) =~= before.push(c@));
            assert(ls.take(i + 1) =~= ls.take(i as int).push(ls[i as int]));
            i = i + 1;
        }
        assert(ls.take(i as int) =~= ls);
        CDomainName { labels }
    }
}

impl CDomainName {
    #[verifier::type_invariant]
    pub open spec fn inv(&self) -> bool {
        self.wf()
    }

    pub open spec fn wf(&self) -> bool {
        valid_labels(self@)
    }

    /// The name that the text `s` spells: labels parted by dots, with an optional final
    /// dot; a lone dot is the root.
    pub fn from_utf8(s: &str) -> (r: Result<CDomainName, InvalidDomainName>)
        ensures
            match name_from_text(s.spec_bytes()) {
                Some(ls) => r is Ok && r->Ok_0@ == ls && r->Ok_0.wf(),
                None => r is Err,
            },
    {
        let b = s.as_bytes();
        let n = b.len();
        if n == 1 && b[0] == 46u8 {
            let r = CDomainName { labels: Vec::new() };
            assert(b@ =~= seq![dot()]);
            assert(r@ =~= Seq::<Seq<u8>>::empty());
            assert(name_wire(r@) =~= seq![0u8]);
            return Ok(r);
        }
        if n == 0 {
            return Err(InvalidDomainName);
        }
        let end = if b[n - 1] == 46u8 { n - 1 } else { n };
        let ghost body = b@.subrange(0, end as int);
        assert(body =~= if b@.last() == dot() { b@.drop_last() } else { b@ });
        let mut labels: Vec<Vec<u8>> = Vec::new();
        let mut cur: Vec<u8> = Vec::new();
        let mut total: usize = 1;
        let mut ok = true;
        let mut i: usize = 0;
        let ghost all = split_from(body, 0, 0);
        let ghost mut start: int = 0;
        while i < end
            invariant
                end <= n,
                n == b@.len(),
                body == b@.subrange(0, end as int),
                all == split_from(body, 0, 0),
                0 <= start <= i <= end,
                cur@ == body.subrange(start, i as int),
                all == labels@.map_values(|l: Vec<u8>| l@) + split_from(body, i as int, start),
                ok ==> forall|k: int| 0 <= k < labels@.len() ==> 1 <= (#[trigger] labels@[k])@.len() <= 63,
                ok ==> total == labels_bytes(labels@.map_values(|l: Vec<u8>| l@)).len() + 1,
                ok ==> total <= 255,
                !ok ==> !valid_labels(all),
            decreases end - i,
        {
            let c = b[i];
            if c == 46u8 {
                let ghost before = labels@.map_values(|l: Vec<u8>| l@);
                let ghost piece = cur@;
                proof {
                    assert(seq![piece] + split_from(body, i + 1, i + 1) == split_from(body, i as int, start));
                }
                let len = cur.len();
                labels.push(cur);
                cur = Vec::new();
                proof {
                    assert(labels@.map_values(|l: Vec<u8>| l@) =~= before.push(piece));
                    assert(all =~= labels@.map_values(|l: Vec<u8>| l@) + split_from(body, i + 1, i + 1));
                    start = i + 1;
                }
                if ok {
                    proof {
                        lemma_labels_bytes_push(before, piece);
                    }
                    if len == 0 || len > 63 || total + 1 + len > 255 {
                        proof {
                            let ls = labels@.map_values(|l: Vec<u8>| l@);
                            let k = ls.len() - 1;
                            assert(all[k] == piece);
                            if len != 0 && len <= 63 {
                                assert(forall|j: int| 0 <= j < ls.len() ==> 1 <= (#[trigger] ls[j]).len() <= 63);
                                assert(all.take(ls.len() as int) =~= ls);
                                lemma_labels_bytes_len(all, ls.len() as int);
                            }
                        }
                        ok = false;
                    } else {
                        total = total + 1 + len;
                    }
                }
            } else {
                cur.push(c);
                proof {
                    assert(cur@ =~= body.subrange(start, i + 1));
                }
            }
            i = i + 1;
        }
        let ghost before = labels@.map_values(|l: Vec<u8>| l@);
        let ghost piece = cur@;
        let len = cur.len();
        labels.push(cur);
        proof {
            assert(labels@.map_values(|l: Vec<u8>| l@) =~= before.push(piece));
            assert(all =~= labels@.map_values(|l: Vec<u8>| l@));
        }
        if !ok {
            return Err(InvalidDomainName);
        }
        proof {
            lemma_labels_bytes_push(before, piece);
        }
        if len == 0 || len > 63 || total + 1 + len > 255 {
            return Err(InvalidDomainName);
        }
        let r = CDomainName { labels };
        proof {
            assert(r@ == all);
        }
        Ok(r)
    }

    /// The text of the name: each label followed by a dot, or a lone dot for the root.
    pub fn to_text_bytes(&self) -> (r: Vec<u8>)
        ensures
            r@ == name_text(self@),
    {
        let ghost ls = self@;
        let mut out: Vec<u8> = Vec::new();
        if self.labels.len() == 0 {
            out.push(46u8);
            assert(out@ =~= name_text(ls));
            return out;
        }
        let mut i: usize = 0;
        while i < self.labels.len()
            invariant
                ls == self@,
                i <= ls.len(),
                out@ == dotted(ls.take(i as int)),
            decreases self.labels.len() - i,
        {
            let l = &self.labels[i];
            assert(l@ == ls[i as int]);
            let ghost mid = out@;
            let mut j: usize = 0;
            while j < l.len()
                invariant
                    j <= l@.len(),
                    out@ == mid + l@.take(j as int),
                decreases l.len() - j,
            {
                out.push(l[j]);
                j = j + 1;
                assert(out@ =~= mid + l@.take(j as int));
            }
            out.push(46u8);
            proof {
                lemma_dotted_push(ls.take(i as int), ls[i as int]);
                assert(ls.take(i as int).push(ls[i as int]) =~= ls.take(i + 1));
                assert(l@.take(j as int) =~= l@);
                assert(out@ =~= dotted(ls.take(i + 1)));
            }
            i = i + 1;
        }
        assert(ls.take(i as int) =~= ls);
        out
    }

    /// The text of the name as a string, where that text is valid UTF-8.
    pub fn to_text(&self) -> (r: Option<String>)
        ensures
            valid_utf8(name_text(self@)) ==> r is Some && r->Some_0@ == decode_utf8(name_text(self@)),
            !valid_utf8(name_text(self@)) ==> r is None,
    {
        string_from_utf8(self.to_text_bytes())
    }

    /// Appends the wire form of the name to `out`.
    pub fn to_wire(&self, out: &mut Vec<u8>)
        ensures
            final(out)@ == old(out)@ + name_wire(self@),
    {
        let ghost ls = self@;
        let ghost start = out@;
        let mut i: usize = 0;
        while i < self.labels.len()
            invariant
                ls == self@,
                i <= ls.len(),
                out@ == start + labels_bytes(ls.take(i as int)),
            decreases self.labels.len() - i,
        {
            let l = &self.labels[i];
            assert(l@ == ls[i as int]);
            out.push(l.len() as u8);
            let mut j: usize = 0;
            let ghost mid = out@;
            while j < l.len()
                invariant
                    j <= l@.len(),
                    out@ == mid + l@.take(j as int),
                decreases l.len() - j,
            {
                out.push(l[j]);
                j = j + 1;
                assert(out@ =~= mid + l@.take(j as int));
            }
            proof {
                assert(ls.take(i + 1).drop_last() =~= ls.take(i as int));
                assert(l@.take(j as int) =~= l@);
                assert(out@ =~= start + labels_bytes(ls.take(i + 1)));
            }
            i = i + 1;
        }
        assert(ls.take(i as int) =~= ls);
        out.push(0u8);
        assert(out@ =~= start + name_wire(ls));
    }

    /// Reads the name that starts at `p` of `b`; gives it and the position after it.
    pub fn from_wire(b: &[u8], p: usize) -> (r: Result<(CDomainName, usize), WireError>)
        ensures
            match decode_name(b@, p as int) {
                Some(x) => r is Ok && r->Ok_0.0@ == x.0 && r->Ok_0.1 == x.1 && r->Ok_0.0.wf(),
                None => r is Err,
            },
    {
        let mut labels: Vec<Vec<u8>> = Vec::new();
        let mut q: usize = p;
        loop
            invariant
                p <= q,
                decode_labels(b@, p as int) == match decode_labels(b@, q as int) {
                    Some(x) => Some((labels@.map_values(|l: Vec<u8>| l@) + x.0, x.1)),
                    None => None,
                },
            decreases b@.len() - q,
        {
            if q >= b.len() {
                return Err(WireError::Truncated);
            }
            let n = b[q] as usize;
            if n == 0 {
                let ghost ls = labels@.map_values(|l: Vec<u8>| l@);
                assert(ls + Seq::<Seq<u8>>::empty() =~= ls);
                if q + 1 - p > 255 {
                    return Err(WireError::Malformed);
                }
                proof {
                    lemma_decode_labels_valid(b@, p as int);
                }
                let r = CDomainName { labels };
                return Ok((r, q + 1));
            }
            if n > 63 {
                return Err(WireError::Malformed);
            }
            if n > b.len() - q - 1 {
                return Err(WireError::Truncated);
            }
            let mut l: Vec<u8> = Vec::new();
            let mut j: usize = 0;
            let base = q + 1;
            let blen = b.len();
            while j < n
                invariant
                    blen == b@.len(),
                    base == q + 1,
                    base + n <= b@.len(),
                    j <= n,
                    l@ == b@.subrange(q + 1, q + 1 + j),
                decreases n - j,
            {
                l.push(b[base + j]);
                j = j + 1;
                assert(l@ =~= b@.subrange(q + 1, q + 1 + j));
            }
            let ghost before = labels@.map_values(|l: Vec<u8>| l@);
            labels.push(l);
            proof {
                assert(labels@.map_values(|l: Vec<u8>| l@) =~= before.push(b@.subrange(q + 1, q + 1 + n)));
                match decode_labels(b@, q + 1 + n) {
                    Some(x) => {
                        assert(before + (seq![b@.subrange(q + 1, q + 1 + n)] + x.0) =~= before.push(
                            b@.subrange(q + 1, q + 1 + n),
                        ) + x.0);
                    },
                    None => {},
                }
            }
            q = q + 1 + n;
        }
    }
}

} // verus!
