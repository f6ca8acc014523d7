use vstd::prelude::*;
use vstd::string::StringSliceAdditionalSpecFns;
use crate::character_string::{CharacterString, string_wire};
use crate::domain_name::{CDomainName, WireError, name_from_text, name_wire, valid_labels};
use crate::rdata::{
    TokenizedRecordError, whole_name, whole_name_from_wire, single_name_rdata,
    single_name_from_tokens, view_result, decimal_u16, u16_token, domain_name_token,
};
use crate::domain_name::{
    lemma_decode_labels_of_wire, lemma_name_text_round_trip, name_text, labels_without_dots,
};
use vstd::utf8::{valid_utf8, decode_utf8, decode_utf8_encode_utf8};

verus! {

/// A mailbox domain name (MB).
#[derive(Clone, PartialEq, Eq, Hash, Debug)]
pub struct MB {
    ma_domain_name: CDomainName,
}

impl View for MB {
    type V = Seq<Seq<u8>>;

    closed spec fn view(&self) -> Seq<Seq<u8>> {
        self.ma_domain_name@
    }
}

impl MB {
    pub open spec fn wf(&self) -> bool {
        valid_labels(self@)
    }

    pub fn new(ma_domain_name: CDomainName) -> (r: Self)
        ensures
            r@ == ma_domain_name@,
            r.wf(),
    {
        proof {
            use_type_invariant(&ma_domain_name);
        }
        MB { ma_domain_name }
    }

    pub fn mailbox_domain_name(&self) -> (r: &CDomainName)
        ensures
            r@ == self@,
    {
        &self.ma_domain_name
    }

    /// The wire form: the domain name.
    pub fn to_wire(&self) -> (r: Vec<u8>)
        ensures
            r@ == name_wire(self@),
    {
        let mut out: Vec<u8> = Vec::new();
        self.ma_domain_name.to_wire(&mut out);
        out
    }

    /// Reads a record whose wire form fills `b`.
    pub fn from_wire(b: &[u8]) -> (r: Result<MB, WireError>)
        ensures
            match whole_name(b@, 0) {
                Some(ls) => r is Ok && r->Ok_0@ == ls && r->Ok_0.wf(),
                None => r is Err,
            },
    {
        match whole_name_from_wire(b, 0) {
            Ok(ma_domain_name) => Ok(MB { ma_domain_name }),
            Err(e) => Err(e),
        }
    }

    /// Reads a record from its rdata tokens: exactly one domain name.
    pub fn from_tokenized_rdata<'a>(rdata: &[&'a str]) -> (r: Result<MB, TokenizedRecordError<'a>>)
        ensures
            view_result(r) == single_name_rdata(rdata@),
            r is Ok ==> r->Ok_0.wf(),
    {
        match single_name_from_tokens(rdata) {
            Ok(ma_domain_name) => Ok(MB { ma_domain_name }),
            Err(e) => Err(e),
        }
    }
}

/// A mail destination (MD).
#[derive(Clone, PartialEq, Eq, Hash, Debug)]
pub struct MD {
    ma_domain_name: CDomainName,
}

impl View for MD {
    type V = Seq<Seq<u8>>;

    closed spec fn view(&self) -> Seq<Seq<u8>> {
        self.ma_domain_name@
    }
}

impl MD {
    pub open spec fn wf(&self) -> bool {
        valid_labels(self@)
    }

    pub fn new(ma_domain_name: CDomainName) -> (r: Self)
        ensures
            r@ == ma_domain_name@,
            r.wf(),
    {
        proof {
            use_type_invariant(&ma_domain_name);
        }
        MD { ma_domain_name }
    }

    pub fn mail_agent_domain_name(&self) -> (r: &CDomainName)
        ensures
            r@ == self@,
    {
        &self.ma_domain_name
    }

    /// The wire form: the domain name.
    pub fn to_wire(&self) -> (r: Vec<u8>)
        ensures
            r@ == name_wire(self@),
    {
        let mut out: Vec<u8> = Vec::new();
        self.ma_domain_name.to_wire(&mut out);
        out
    }

    /// Reads a record whose wire form fills `b`.
    pub fn from_wire(b: &[u8]) -> (r: Result<MD, WireError>)
        ensures
            match whole_name(b@, 0) {
                Some(ls) => r is Ok && r->Ok_0@ == ls && r->Ok_0.wf(),
                None => r is Err,
            },
    {
        match whole_name_from_wire(b, 0) {
            Ok(ma_domain_name) => Ok(MD { ma_domain_name }),
            Err(e) => Err(e),
        }
    }

    /// The presentation form: the text of the domain name, where it is valid UTF-8.
    pub fn to_presentation(&self) -> (r: Option<String>)
        ensures
            valid_utf8(name_text(self@)) ==> r is Some && r->Some_0@ == decode_utf8(name_text(self@)),
            !valid_utf8(name_text(self@)) ==> r is None,
    {
        self.ma_domain_name.to_text()
    }

    /// Reads a record from its rdata tokens: exactly one domain name.
    pub fn from_tokenized_rdata<'a>(rdata: &[&'a str]) -> (r: Result<MD, TokenizedRecordError<'a>>)
        ensures
            view_result(r) == single_name_rdata(rdata@),
            r is Ok ==> r->Ok_0.wf(),
    {
        match single_name_from_tokens(rdata) {
            Ok(ma_domain_name) => Ok(MD { ma_domain_name }),
            Err(e) => Err(e),
        }
    }
}

/// A mail forwarder (MF).
#[derive(Clone, PartialEq, Eq, Hash, Debug)]
pub struct MF {
    ma_domain_name: CDomainName,
}

impl View for MF {
    type V = Seq<Seq<u8>>;

    closed spec fn view(&self) -> Seq<Seq<u8>> {
        self.ma_domain_name@
    }
}

impl MF {
    pub open spec fn wf(&self) -> bool {
        valid_labels(self@)
    }

    pub fn new(ma_domain_name: CDomainName) -> (r: Self)
        ensures
            r@ == ma_domain_name@,
            r.wf(),
    {
        proof {
            use_type_invariant(&ma_domain_name);
        }
        MF { ma_domain_name }
    }

    pub fn mail_forwarding_agent_domain_name(&self) -> (r: &CDomainName)
        ensures
            r@ == self@,
    {
        &self.ma_domain_name
    }

    /// The wire form: the domain name.
    pub fn to_wire(&self) -> (r: Vec<u8>)
        ensures
            r@ == name_wire(self@),
    {
        let mut out: Vec<u8> = Vec::new();
        self.ma_domain_name.to_wire(&mut out);
        out
    }

    /// Reads a record whose wire form fills `b`.
    pub fn from_wire(b: &[u8]) -> (r: Result<MF, WireError>)
        ensures
            match whole_name(b@, 0) {
                Some(ls) => r is Ok && r->Ok_0@ == ls && r->Ok_0.wf(),
                None => r is Err,
            },
    {
        match whole_name_from_wire(b, 0) {
            Ok(ma_domain_name) => Ok(MF { ma_domain_name }),
            Err(e) => Err(e),
        }
    }

    /// Reads a record from its rdata tokens: exactly one domain name.
    pub fn from_tokenized_rdata<'a>(rdata: &[&'a str]) -> (r: Result<MF, TokenizedRecordError<'a>>)
        ensures
            view_result(r) == single_name_rdata(rdata@),
            r is Ok ==> r->Ok_0.wf(),
    {
        match single_name_from_tokens(rdata) {
            Ok(ma_domain_name) => Ok(MF { ma_domain_name }),
            Err(e) => Err(e),
        }
    }
}

/// A mail rename domain name (MR).
#[derive(Clone, PartialEq, Eq, Hash, Debug)]
pub struct MR {
    new_domain_name: CDomainName,
}

impl View for MR {
    type V = Seq<Seq<u8>>;

    closed spec fn view(&self) -> Seq<Seq<u8>> {
        self.new_domain_name@
    }
}

impl MR {
    pub open spec fn wf(&self) -> bool {
        valid_labels(self@)
    }

    pub fn new(new_domain_name: CDomainName) -> (r: Self)
        ensures
            r@ == new_domain_name@,
            r.wf(),
    {
        proof {
            use_type_invariant(&new_domain_name);
        }
        MR { new_domain_name }
    }

    pub fn mailbox_rename_domain_name(&self) -> (r: &CDomainName)
        ensures
            r@ == self@,
    {
        &self.new_domain_name
    }

    /// The wire form: the domain name.
    pub fn to_wire(&self) -> (r: Vec<u8>)
        ensures
            r@ == name_wire(self@),
    {
        let mut out: Vec<u8> = Vec::new();
        self.new_domain_name.to_wire(&mut out);
        out
    }

    /// Reads a record whose wire form fills `b`.
    pub fn from_wire(b: &[u8]) -> (r: Result<MR, WireError>)
        ensures
            match whole_name(b@, 0) {
                Some(ls) => r is Ok && r->Ok_0@ == ls && r->Ok_0.wf(),
                None => r is Err,
            },
    {
        match whole_name_from_wire(b, 0) {
            Ok(new_domain_name) => Ok(MR { new_domain_name }),
            Err(e) => Err(e),
        }
    }

    /// Reads a record from its rdata tokens: exactly one domain name.
    pub fn from_tokenized_rdata<'a>(rdata: &[&'a str]) -> (r: Result<MR, TokenizedRecordError<'a>>)
        ensures
            view_result(r) == single_name_rdata(rdata@),
            r is Ok ==> r->Ok_0.wf(),
    {
        match single_name_from_tokens(rdata) {
            Ok(new_domain_name) => Ok(MR { new_domain_name }),
            Err(e) => Err(e),
        }
    }
}

/// Reading the wire form of an MB, MD, MF or MR record, whose wire form is its
/// domain name, gives the record's name back.
pub proof fn lemma_name_record_wire_round_trip(ls: Seq<Seq<u8>>)
    requires
        valid_labels(ls),
    ensures
        whole_name(name_wire(ls), 0) == Some(ls),
{
    lemma_decode_labels_of_wire(Seq::empty(), ls, Seq::empty());
    assert(Seq::<u8>::empty() + name_wire(ls) + Seq::<u8>::empty() =~= name_wire(ls));
}

/// Reading the presentation form of an MD record as its one rdata token gives the
/// record back, where no label holds a dot and the text is valid UTF-8.
pub proof fn lemma_md_presentation_round_trip(ls: Seq<Seq<u8>>, t: &str)
    requires
        valid_labels(ls),
        labels_without_dots(ls),
        valid_utf8(name_text(ls)),
        t@ == decode_utf8(name_text(ls)),
    ensures
        single_name_rdata(seq![t]) == Ok::<Seq<Seq<u8>>, TokenizedRecordError<'_>>(ls),
{
    decode_utf8_encode_utf8(name_text(ls));
    lemma_name_text_round_trip(ls);
}

/// The two bytes of `v`, most significant first.
pub open spec fn u16_be(v: u16) -> Seq<u8> {
    seq![(v / 256) as u8, (v % 256) as u8]
}

/// The wire form of a mail exchange: preference, then exchange name.
pub open spec fn mx_wire(m: (u16, Seq<Seq<u8>>)) -> Seq<u8> {
    u16_be(m.0) + name_wire(m.1)
}

/// The mail exchange whose wire form fills `b`.
pub open spec fn mx_from_wire(b: Seq<u8>) -> Option<(u16, Seq<Seq<u8>>)> {
    if b.len() < 2 {
        None
    } else {
        match whole_name(b, 2) {
            Some(ls) => Some(((b[0] * 256 + b[1]) as u16, ls)),
            None => None,
        }
    }
}

/// What the rdata tokens of a mail exchange give: a preference, then a domain name.
pub open spec fn mx_rdata<'a>(rdata: Seq<&'a str>) -> Result<
    (u16, Seq<Seq<u8>>),
    TokenizedRecordError<'a>,
> {
    if rdata.len() < 2 {
        Err(TokenizedRecordError::TooFewRDataTokensError(2, rdata.len() as usize))
    } else if rdata.len() > 2 {
        Err(TokenizedRecordError::TooManyRDataTokensError(2, rdata.len() as usize))
    } else {
        match decimal_u16(rdata[0].spec_bytes()) {
            None => Err(TokenizedRecordError::InvalidInteger(rdata[0])),
            Some(p) => match name_from_text(rdata[1].spec_bytes()) {
                Some(ls) => Ok((p, ls)),
                None => Err(TokenizedRecordError::InvalidDomainName(rdata[1])),
            },
        }
    }
}

/// A mail exchange (MX): a preference and the name of the exchange.
#[derive(Clone, PartialEq, Eq, Hash, Debug)]
pub struct MX {
    preference: u16,
    exchange: CDomainName,
}

impl View for MX {
    type V = (u16, Seq<Seq<u8>>);

    closed spec fn view(&self) -> (u16, Seq<Seq<u8>>) {
        (self.preference, self.exchange@)
    }
}

impl MX {
    pub open spec fn wf(&self) -> bool {
        valid_labels(self@.1)
    }

    pub fn new(preference: u16, exchange: CDomainName) -> (r: Self)
        ensures
            r@ == (preference, exchange@),
            r.wf(),
    {
        proof {
            use_type_invariant(&exchange);
        }
        MX { preference, exchange }
    }

    pub fn preference(&self) -> (r: u16)
        ensures
            r == self@.0,
    {
        self.preference
    }

    pub fn exchange(&self) -> (r: &CDomainName)
        ensures
            r@ == self@.1,
    {
        &self.exchange
    }

    /// The wire form: the preference in two bytes, most significant first, then the
    /// exchange name.
    pub fn to_wire(&self) -> (r: Vec<u8>)
        ensures
            r@ == mx_wire(self@),
    {
        let mut out: Vec<u8> = Vec::new();
        out.push((self.preference / 256) as u8);
        out.push((self.preference % 256) as u8);
        let ghost head = out@;
        assert(head =~= u16_be(self.preference));
        self.exchange.to_wire(&mut out);
        out
    }

    /// Reads a record whose wire form fills `b`.
    pub fn from_wire(b: &[u8]) -> (r: Result<MX, WireError>)
        ensures
            match mx_from_wire(b@) {
                Some(m) => r is Ok && r->Ok_0@ == m && r->Ok_0.wf(),
                None => r is Err,
            },
    {
        if b.len() < 2 {
            return Err(WireError::Truncated);
        }
        let preference = (b[0] as u16) * 256 + (b[1] as u16);
        match whole_name_from_wire(b, 2) {
            Ok(exchange) => Ok(MX { preference, exchange }),
            Err(e) => Err(e),
        }
    }

    /// Reads a record from its rdata tokens: a decimal preference, then the exchange
    /// name.
    pub fn from_tokenized_rdata<'a>(rdata: &[&'a str]) -> (r: Result<MX, TokenizedRecordError<'a>>)
        ensures
            view_result(r) == mx_rdata(rdata@),
            r is Ok ==> r->Ok_0.wf(),
    {
        if rdata.len() < 2 {
            return Err(TokenizedRecordError::TooFewRDataTokensError(2, rdata.len()));
        }
        if rdata.len() > 2 {
            return Err(TokenizedRecordError::TooManyRDataTokensError(2, rdata.len()));
        }
        let preference = match u16_token(rdata[0]) {
            Ok(p) => p,
            Err(e) => {
                return Err(e);
            },
        };
        match domain_name_token(rdata[1]) {
            Ok(exchange) => Ok(MX { preference, exchange }),
            Err(e) => Err(e),
        }
    }
}

/// Reading the wire form of a mail exchange gives it back.
pub proof fn lemma_mx_wire_round_trip(m: (u16, Seq<Seq<u8>>))
    requires
        valid_labels(m.1),
    ensures
        mx_from_wire(mx_wire(m)) == Some(m),
{
    let b = mx_wire(m);
    lemma_decode_labels_of_wire(u16_be(m.0), m.1, Seq::empty());
    assert(u16_be(m.0) + name_wire(m.1) + Seq::<u8>::empty() =~= b);
    assert((b[0] * 256 + b[1]) as u16 == m.0);
}

/// The wire form of character strings: each after its length, in order.
pub open spec fn strings_wire(ss: Seq<Seq<u8>>) -> Seq<u8>
    decreases ss.len(),
{
    if ss.len() == 0 {
        Seq::empty()
    } else {
        strings_wire(ss.drop_last()) + string_wire(ss.last())
    }
}

/// Every string holds at most 255 bytes.
pub open spec fn strings_fit(ss: Seq<Seq<u8>>) -> bool {
    forall|i: int| 0 <= i < ss.len() ==> (#[trigger] ss[i]).len() <= 255
}

/// The character strings that fill `b` from `p` to its end.
pub open spec fn decode_strings(b: Seq<u8>, p: int) -> Option<Seq<Seq<u8>>>
    decreases b.len() - p,
{
    if p < 0 || p > b.len() {
        None
    } else if p == b.len() {
        Some(Seq::empty())
    } else if p + 1 + b[p] > b.len() {
        None
    } else {
        match decode_strings(b, p + 1 + b[p]) {
            Some(ss) => Some(seq![b.subrange(p + 1, p + 1 + b[p])] + ss),
            None => None,
        }
    }
}

/// The strings that rdata tokens give from token `i` on: the bytes of each token,
/// or an error for the first that is too long.
pub open spec fn strings_from_tokens<'a>(rdata: Seq<&'a str>, i: int) -> Result<
    Seq<Seq<u8>>,
    TokenizedRecordError<'a>,
>
    decreases rdata.len() - i,
{
    if i < 0 || i >= rdata.len() {
        Ok(Seq::empty())
    } else if rdata[i].spec_bytes().len() > 255 {
        Err(TokenizedRecordError::InvalidCharacterString(rdata[i]))
    } else {
        match strings_from_tokens(rdata, i + 1) {
            Ok(ss) => Ok(seq![rdata[i].spec_bytes()] + ss),
            Err(e) => Err(e),
        }
    }
}

/// What the rdata tokens of a TXT record give: at least one token, each a string.
pub open spec fn txt_rdata<'a>(rdata: Seq<&'a str>) -> Result<Seq<Seq<u8>>, TokenizedRecordError<'a>> {
    if rdata.len() == 0 {
        Err(TokenizedRecordError::TooFewRDataTokensError(1, 0))
    } else {
        strings_from_tokens(rdata, 0)
    }
}

/// Text strings (TXT).
#[derive(PartialEq, Eq, Hash, Debug)]
pub struct TXT {
    strings: Vec<CharacterString>,
}

impl View for TXT {
    type V = Seq<Seq<u8>>;

    closed spec fn view(&self) -> Seq<Seq<u8>> {
        self.strings@.map_values(|c: CharacterString| c@)
    }
}

proof fn lemma_strings_wire_front(ss: Seq<Seq<u8>>)
    requires
        ss.len() > 0,
    ensures
        strings_wire(ss) == string_wire(ss[0]) + strings_wire(ss.skip(1)),
    decreases ss.len(),
{
    if ss.len() == 1 {
        assert(ss.drop_last() =~= Seq::<Seq<u8>>::empty());
        assert(ss.skip(1) =~= Seq::<Seq<u8>>::empty());
        assert(strings_wire(ss) =~= string_wire(ss[0]) + strings_wire(ss.skip(1)));
    } else {
        let d = ss.drop_last();
        lemma_strings_wire_front(d);
        assert(d.skip(1) =~= ss.skip(1).drop_last());
        assert(ss.skip(1).last() == ss.last());
        assert(strings_wire(ss) =~= string_wire(ss[0]) + strings_wire(ss.skip(1)));
    }
}

proof fn lemma_decode_strings_of_wire(pre: Seq<u8>, ss: Seq<Seq<u8>>)
    requires
        forall|i: int| 0 <= i < ss.len() ==> (#[trigger] ss[i]).len() <= 255,
    ensures
        decode_strings(pre + strings_wire(ss), pre.len() as int) == Some(ss),
    decreases ss.len(),
{
    let b = pre + strings_wire(ss);
    let p = pre.len() as int;
    if ss.len() == 0 {
        assert(b =~= pre);
    } else {
        lemma_strings_wire_front(ss);
        let s = ss[0];
        let pre2 = pre + string_wire(s);
        let tail = ss.skip(1);
        assert forall|i: int| 0 <= i < tail.len() implies (#[trigger] tail[i]).len() <= 255 by {
            assert(tail[i] == ss[i + 1]);
        }
        lemma_decode_strings_of_wire(pre2, tail);
        assert(b =~= pre2 + strings_wire(tail));
        assert(b[p] == s.len() as u8);
        assert(b.subrange(p + 1, p + 1 + s.len()) =~= s);
        assert(seq![s] + tail =~= ss);
    }
}

/// Reading the wire form of a TXT record's strings gives them back.
pub proof fn lemma_txt_wire_round_trip(ss: Seq<Seq<u8>>)
    requires
        strings_fit(ss),
    ensures
        decode_strings(strings_wire(ss), 0) == Some(ss),
{
    lemma_decode_strings_of_wire(Seq::empty(), ss);
    assert(Seq::<u8>::empty() + strings_wire(ss) =~= strings_wire(ss));
}

/// One or more tokens, each of at most 255 bytes, give a TXT record that holds their
/// bytes, as many strings as tokens and in their order.
pub proof fn lemma_txt_tokens_kept<'a>(rdata: Seq<&'a str>)
    requires
        rdata.len() >= 1,
        forall|i: int| 0 <= i < rdata.len() ==> (#[trigger] rdata[i]).spec_bytes().len() <= 255,
    ensures
        txt_rdata(rdata) == Ok::<Seq<Seq<u8>>, TokenizedRecordError<'a>>(
            rdata.map_values(|t: &'a str| t.spec_bytes()),
        ),
{
    lemma_strings_from_all_short(rdata, 0);
    assert(rdata.skip(0) =~= rdata);
}

proof fn lemma_strings_from_all_short<'a>(rdata: Seq<&'a str>, i: int)
    requires
        0 <= i <= rdata.len(),
        forall|k: int| 0 <= k < rdata.len() ==> (#[trigger] rdata[k]).spec_bytes().len() <= 255,
    ensures
        strings_from_tokens(rdata, i) == Ok::<Seq<Seq<u8>>, TokenizedRecordError<'a>>(
            rdata.skip(i).map_values(|t: &'a str| t.spec_bytes()),
        ),
    decreases rdata.len() - i,
{
    if i < rdata.len() {
        lemma_strings_from_all_short(rdata, i + 1);
        assert(seq![rdata[i].spec_bytes()] + rdata.skip(i + 1).map_values(|t: &'a str| t.spec_bytes())
            =~= rdata.skip(i).map_values(|t: &'a str| t.spec_bytes()));
    } else {
        assert(rdata.skip(i).map_values(|t: &'a str| t.spec_bytes()) =~= Seq::<Seq<u8>>::empty());
    }
}

impl Clone for TXT {
    fn clone(&self) -> (r: Self)
        ensures
            r@ == self@,
    {
        proof {
            use_type_invariant(self);
        }
        let ghost ss = self@;
        let mut strings: Vec<CharacterString> = Vec::new();
        let mut i: usize = 0;
        while i < self.strings.len()
            invariant
                ss == self@,
                strings_fit(ss),
                i <= self.strings@.len(),
                strings@.map_values(|c: CharacterString| c@) == ss.take(i as int),
            decreases self.strings.len() - i,
        {
            let c = self.strings[i].clone();
            let ghost before = strings@.map_values(|c: CharacterString| c@);
            strings.push(c);
            assert(strings@.map_values(|c: CharacterString| c@) =~= before.push(c@));
            assert(ss.take(i + 1) =~= ss.take(i as int).push(ss[i as int]));
            i = i + 1;
        }
        assert(ss.take(i as int) =~= ss);
        TXT { strings }
    }
}

impl TXT {
    #[verifier::type_invariant]
    pub open spec fn inv(&self) -> bool {
        self.wf()
    }

    pub open spec fn wf(&self) -> bool {
        strings_fit(self@)
    }

    pub fn new(strings: Vec<CharacterString>) -> (r: Self)
        ensures
            r@ == strings@.map_values(|c: CharacterString| c@),
            r.wf(),
    {
        // each string's bound comes from its own invariant, read through `len`
        let mut i: usize = 0;
        while i < strings.len()
            invariant
                i <= strings@.len(),
                forall|k: int| 0 <= k < i ==> (#[trigger] strings@[k])@.len() <= 255,
            decreases strings.len() - i,
        {
            let n = strings[i].len();
            assert(n <= 255);
            i = i + 1;
        }
        TXT { strings }
    }

    pub fn strings(&self) -> (r: &[CharacterString])
        ensures
            r@.map_values(|c: CharacterString| c@) == self@,
            self.wf(),
    {
        proof {
            use_type_invariant(self);
        }
        self.strings.as_slice()
    }

    /// The wire form: each string after its length, in order.
    pub fn to_wire(&self) -> (r: Vec<u8>)
        ensures
            r@ == strings_wire(self@),
    {
        let ghost ss = self@;
        let mut out: Vec<u8> = Vec::new();
        let mut i: usize = 0;
        while i < self.strings.len()
            invariant
                ss == self@,
                i <= self.strings@.len(),
                out@ == strings_wire(ss.take(i as int)),
            decreases self.strings.len() - i,
        {
            self.strings[i].to_wire(&mut out);
            proof {
                assert(ss.take(i + 1).drop_last() =~= ss.take(i as int));
                assert(ss.take(i + 1).last() == self.strings@[i as int]@);
            }
            i = i + 1;
        }
        assert(ss.take(i as int) =~= ss);
        out
    }

    /// Reads a record whose wire form fills `b`.
    pub fn from_wire(b: &[u8]) -> (r: Result<TXT, WireError>)
        ensures
            match decode_strings(b@, 0) {
                Some(ss) => r is Ok && r->Ok_0@ == ss && r->Ok_0.wf(),
                None => r is Err,
            },
    {
        let mut strings: Vec<CharacterString> = Vec::new();
        let mut q: usize = 0;
        while q < b.len()
            invariant
                q <= b@.len(),
                strings_fit(strings@.map_values(|c: CharacterString| c@)),
                decode_strings(b@, 0) == match decode_strings(b@, q as int) {
                    Some(ss) => Some(strings@.map_values(|c: CharacterString| c@) + ss),
                    None => None,
                },
            decreases b@.len() - q,
        {
            let (s, next) = match CharacterString::from_wire(b, q) {
                Ok(x) => x,
                Err(e) => {
                    return Err(e);
                },
            };
            let ghost before = strings@.map_values(|c: CharacterString| c@);
            let ghost piece = s@;
            strings.push(s);
            proof {
                assert(strings@.map_values(|c: CharacterString| c@) =~= before.push(piece));
                match decode_strings(b@, next as int) {
                    Some(ss) => {
                        assert(before + (seq![piece] + ss) =~= before.push(piece) + ss);
                    },
                    None => {},
                }
            }
            q = next;
        }
        let r = TXT { strings };
        assert(r@ + Seq::<Seq<u8>>::empty() =~= r@);
        Ok(r)
    }

    /// Reads a record from its rdata tokens: one or more, each a character string.
    pub fn from_tokenized_record<'a>(rdata: &[&'a str]) -> (r: Result<TXT, TokenizedRecordError<'a>>)
        ensures
            view_result(r) == txt_rdata(rdata@),
            r is Ok ==> r->Ok_0.wf(),
    {
        if rdata.len() == 0 {
            return Err(TokenizedRecordError::TooFewRDataTokensError(1, 0));
        }
        let mut strings: Vec<CharacterString> = Vec::with_capacity(rdata.len());
        let mut i: usize = 0;
        while i < rdata.len()
            invariant
                i <= rdata@.len(),
                strings_fit(strings@.map_values(|c: CharacterString| c@)),
                strings_from_tokens(rdata@, 0) == match strings_from_tokens(rdata@, i as int) {
                    Ok(ss) => Ok(strings@.map_values(|c: CharacterString| c@) + ss),
                    Err(e) => Err(e),
                },
            decreases rdata.len() - i,
        {
            let t = rdata[i];
            let s = match CharacterString::from_utf8(t) {
                Ok(s) => s,
                Err(_) => {
                    return Err(TokenizedRecordError::InvalidCharacterString(t));
                },
            };
            let ghost before = strings@.map_values(|c: CharacterString| c@);
            let ghost piece = s@;
            strings.push(s);
            proof {
                assert(strings@.map_values(|c: CharacterString| c@) =~= before.push(piece));
                match strings_from_tokens(rdata@, i + 1) {
                    Ok(ss) => {
                        assert(before + (seq![piece] + ss) =~= before.push(piece) + ss);
                    },
                    Err(e) => {},
                }
            }
            i = i + 1;
        }
        let r = TXT { strings };
        assert(r@ + Seq::<Seq<u8>>::empty() =~= r@);
        Ok(r)
    }
}

} // verus!
