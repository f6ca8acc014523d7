use vstd::prelude::*;
use vstd::string::StringExecFns;
use crate::classify::{chars_of, spells, spells_word, is_class, is_type, is_ttl, is_class_token, is_type_token, is_ttl_token};
use crate::lexer::{
    line_tokens, tokenize_line, lex, is_blank, LexMode, blanks_from, lemma_blanks_bound,
};

verus! {

/// One token of a zone-file line: a piece of text, or the whitespace that opens a
/// line whose owner name is left out.
#[derive(Clone, Copy, PartialEq, Eq, Hash, Debug)]
pub enum EntryTextToken<'a> {
    TextLiteral(&'a str),
    Separator(&'a str),
}

/// The text of a token, in the model.
pub enum TokenModel {
    Literal(Seq<char>),
    Blank(Seq<char>),
}

impl TokenModel {
    pub open spec fn text(self) -> Seq<char> {
        match self {
            TokenModel::Literal(t) => t,
            TokenModel::Blank(t) => t,
        }
    }
}

impl<'a> EntryTextToken<'a> {
    pub open spec fn model(self) -> TokenModel {
        match self {
            EntryTextToken::TextLiteral(t) => TokenModel::Literal(t@),
            EntryTextToken::Separator(t) => TokenModel::Blank(t@),
        }
    }

    /// The text that the token covers.
    pub fn text(&self) -> (r: &'a str)
        ensures
            r@ == self.model().text(),
    {
        match self {
            EntryTextToken::TextLiteral(t) => t,
            EntryTextToken::Separator(t) => t,
        }
    }
}

pub open spec fn tokens_model<'a>(t: Seq<EntryTextToken<'a>>) -> Seq<TokenModel> {
    t.map_values(|x: EntryTextToken<'a>| x.model())
}

pub open spec fn opt_model(o: Option<&str>) -> Option<Seq<char>> {
    match o {
        Some(s) => Some(s@),
        None => None,
    }
}

/// A parsed zone-file line. Its text fields are slices of the input.
#[derive(Clone, PartialEq, Eq, Hash, Debug)]
pub enum Entry<'a> {
    Origin { origin: &'a str },
    Include { file_name: &'a str, domain_name: Option<&'a str> },
    ResourceRecord {
        domain_name: Option<&'a str>,
        ttl: Option<&'a str>,
        rclass: Option<&'a str>,
        rtype: &'a str,
        rdata: Vec<&'a str>,
    },
}

/// What an `Entry` holds, as character sequences.
pub enum EntryModel {
    Origin { origin: Seq<char> },
    Include { file_name: Seq<char>, domain_name: Option<Seq<char>> },
    ResourceRecord {
        domain_name: Option<Seq<char>>,
        ttl: Option<Seq<char>>,
        rclass: Option<Seq<char>>,
        rtype: Seq<char>,
        rdata: Seq<Seq<char>>,
    },
}

impl<'a> Entry<'a> {
    pub open spec fn model(self) -> EntryModel {
        match self {
            Entry::Origin { origin } => EntryModel::Origin { origin: origin@ },
            Entry::Include { file_name, domain_name } => EntryModel::Include {
                file_name: file_name@,
                domain_name: opt_model(domain_name),
            },
            Entry::ResourceRecord { domain_name, ttl, rclass, rtype, rdata } => {
                EntryModel::ResourceRecord {
                    domain_name: opt_model(domain_name),
                    ttl: opt_model(ttl),
                    rclass: opt_model(rclass),
                    rtype: rtype@,
                    rdata: rdata@.map_values(|s: &'a str| s@),
                }
            },
        }
    }
}

/// A line `label value`, or nothing where there is no value.
pub open spec fn opt_line(label: Seq<char>, v: Option<Seq<char>>) -> Seq<char> {
    match v {
        Some(x) => label + x + "\n"@,
        None => Seq::empty(),
    }
}

/// One line for each rdata token, in order.
pub open spec fn rdata_lines(rd: Seq<Seq<char>>) -> Seq<char>
    decreases rd.len(),
{
    if rd.len() == 0 {
        Seq::empty()
    } else {
        rdata_lines(rd.drop_last()) + "\tRData: "@ + rd.last() + "\n"@
    }
}

/// The readable form of an entry: a heading, then one indented line per field.
pub open spec fn entry_text(e: EntryModel) -> Seq<char> {
    match e {
        EntryModel::Origin { origin } => "ORIGIN\n"@ + "\tDomain Name: "@ + origin + "\n"@,
        EntryModel::Include { file_name, domain_name } => "INCLUDE\n"@ + "\tFile Name: "@ + file_name
            + "\n"@ + opt_line("\tDomain Name: "@, domain_name),
        EntryModel::ResourceRecord { domain_name, ttl, rclass, rtype, rdata } => "Resource Record\n"@
            + opt_line("\tDomain Name: "@, domain_name) + opt_line("\tTTL: "@, ttl) + opt_line(
            "\tClass: "@,
            rclass,
        ) + "\tType: "@ + rtype + "\n"@ + rdata_lines(rdata),
    }
}

fn push_opt_line(out: &mut String, label: &str, v: Option<&str>)
    ensures
        final(out)@ == old(out)@ + opt_line(label@, opt_model(v)),
{
    if let Some(x) = v {
        out.append(label);
        out.append(x);
        out.append("\n");
    } else {
        assert(out@ + Seq::<char>::empty() =~= out@);
    }
}

impl<'a> Entry<'a> {
    /// The entry in readable form: a heading, then one indented line per field.
    pub fn to_text(&self) -> (r: String)
        ensures
            r@ == entry_text(self.model()),
    {
        let mut out = String::new();
        match self {
            Entry::Origin { origin } => {
                out.append("ORIGIN\n");
                out.append("\tDomain Name: ");
                out.append(origin);
                out.append("\n");
                assert(out@ =~= entry_text(self.model()));
            },
            Entry::Include { file_name, domain_name } => {
                out.append("INCLUDE\n");
                out.append("\tFile Name: ");
                out.append(file_name);
                out.append("\n");
                push_opt_line(&mut out, "\tDomain Name: ", *domain_name);
                assert(out@ =~= entry_text(self.model()));
            },
            Entry::ResourceRecord { domain_name, ttl, rclass, rtype, rdata } => {
                out.append("Resource Record\n");
                push_opt_line(&mut out, "\tDomain Name: ", *domain_name);
                push_opt_line(&mut out, "\tTTL: ", *ttl);
                push_opt_line(&mut out, "\tClass: ", *rclass);
                out.append("\tType: ");
                out.append(rtype);
                out.append("\n");
                let ghost head = out@;
                let ghost rd = rdata@.map_values(|s: &'a str| s@);
                let mut i: usize = 0;
                while i < rdata.len()
                    invariant
                        i <= rdata@.len(),
                        rd == rdata@.map_values(|s: &'a str| s@),
                        out@ == head + rdata_lines(rd.take(i as int)),
                    decreases rdata.len() - i,
                {
                    out.append("\tRData: ");
                    out.append(rdata[i]);
                    out.append("\n");
                    proof {
                        assert(rd.take(i + 1).drop_last() =~= rd.take(i as int));
                        assert(rd.take(i + 1).last() == rdata@[i as int]@);
                        assert(out@ =~= head + rdata_lines(rd.take(i + 1)));
                    }
                    i = i + 1;
                }
                assert(rd.take(i as int) =~= rd);
                assert(out@ =~= entry_text(self.model()));
            },
        }
        out
    }
}

/// Why a line could not be read as an entry.
#[derive(Clone, Copy, PartialEq, Eq, Hash, Debug)]
pub enum TokenizerError<'a> {
    UnknownToken(&'a str),
    TwoUnknownTokens(&'a str, &'a str),
    UnknownTokens,
}

pub enum TokenizerErrorModel {
    UnknownToken(Seq<char>),
    TwoUnknownTokens(Seq<char>, Seq<char>),
    UnknownTokens,
}

impl<'a> TokenizerError<'a> {
    pub open spec fn model(self) -> TokenizerErrorModel {
        match self {
            TokenizerError::UnknownToken(t) => TokenizerErrorModel::UnknownToken(t@),
            TokenizerError::TwoUnknownTokens(a, b) => TokenizerErrorModel::TwoUnknownTokens(a@, b@),
            TokenizerError::UnknownTokens => TokenizerErrorModel::UnknownTokens,
        }
    }
}

pub open spec fn result_model<'a>(r: Result<Entry<'a>, TokenizerError<'a>>) -> Result<
    EntryModel,
    TokenizerErrorModel,
> {
    match r {
        Ok(e) => Ok(e.model()),
        Err(e) => Err(e.model()),
    }
}

/// A token that stands where the type is expected: a type mnemonic that is no class.
pub open spec fn names_type(s: Seq<char>) -> bool {
    !is_class_token(s) && is_type_token(s)
}

/// A record entry whose rdata is the text of each of `rest`, in order.
pub open spec fn record(
    domain_name: Option<Seq<char>>,
    ttl: Option<Seq<char>>,
    rclass: Option<Seq<char>>,
    rtype: Seq<char>,
    rest: Seq<TokenModel>,
) -> EntryModel {
    EntryModel::ResourceRecord {
        domain_name,
        ttl,
        rclass,
        rtype,
        rdata: rest.map_values(|t: TokenModel| t.text()),
    }
}

/// The record that the tokens after the owner name describe:
/// `[ttl] [class] type rdata...` or `[class] [ttl] type rdata...`.
pub open spec fn parse_tail(domain_name: Option<Seq<char>>, toks: Seq<TokenModel>) -> Result<
    EntryModel,
    TokenizerErrorModel,
> {
    if toks.len() >= 2 && toks[0] is Literal && toks[1] is Literal {
        let t1 = toks[0].text();
        let t2 = toks[1].text();
        if names_type(t1) {
            Ok(record(domain_name, None, None, t1, toks.skip(1)))
        } else if names_type(t2) {
            if is_class_token(t1) {
                Ok(record(domain_name, None, Some(t1), t2, toks.skip(2)))
            } else if is_ttl_token(t1) {
                Ok(record(domain_name, Some(t1), None, t2, toks.skip(2)))
            } else {
                Err(TokenizerErrorModel::UnknownToken(t1))
            }
        } else if toks.len() >= 3 {
            let t3 = toks[2].text();
            if !names_type(t3) {
                Err(TokenizerErrorModel::TwoUnknownTokens(t1, t2))
            } else if is_class_token(t1) && is_ttl_token(t2) {
                Ok(record(domain_name, Some(t2), Some(t1), t3, toks.skip(3)))
            } else if is_ttl_token(t1) && is_class_token(t2) {
                Ok(record(domain_name, Some(t1), Some(t2), t3, toks.skip(3)))
            } else {
                Err(TokenizerErrorModel::TwoUnknownTokens(t1, t2))
            }
        } else {
            Err(TokenizerErrorModel::TwoUnknownTokens(t1, t2))
        }
    } else {
        Err(TokenizerErrorModel::UnknownTokens)
    }
}

/// A literal that spells the upper-case keyword `w`, in any case.
pub open spec fn is_literal_of(t: TokenModel, w: Seq<char>) -> bool {
    t is Literal && spells(t.text(), w)
}

pub open spec fn origin_word() -> Seq<char> {
    seq!['$', 'O', 'R', 'I', 'G', 'I', 'N']
}

pub open spec fn include_word() -> Seq<char> {
    seq!['$', 'I', 'N', 'C', 'L', 'U', 'D', 'E']
}

/// The entry that the tokens of one non-empty line make.
pub open spec fn parse_line(toks: Seq<TokenModel>) -> Result<EntryModel, TokenizerErrorModel> {
    if toks.len() == 2 && is_literal_of(toks[0], origin_word()) && toks[1] is Literal {
        Ok(EntryModel::Origin { origin: toks[1].text() })
    } else if toks.len() == 2 && is_literal_of(toks[0], include_word()) && toks[1] is Literal {
        Ok(EntryModel::Include { file_name: toks[1].text(), domain_name: None })
    } else if toks.len() == 3 && is_literal_of(toks[0], include_word()) && toks[1] is Literal
        && toks[2] is Literal {
        Ok(EntryModel::Include { file_name: toks[1].text(), domain_name: Some(toks[2].text()) })
    } else if toks[0] is Literal {
        parse_tail(Some(toks[0].text()), toks.skip(1))
    } else {
        parse_tail(None, toks.skip(1))
    }
}

/// How many characters the line that starts at `p` holds, its end of line left out.
pub open spec fn line_len(s: Seq<char>, p: int) -> nat
    decreases s.len() - p,
{
    if 0 <= p < s.len() && s[p] != '\n' {
        1 + line_len(s, p + 1)
    } else {
        0
    }
}

/// Where the line after the one that starts at `p` starts.
pub open spec fn next_line(s: Seq<char>, p: int) -> int {
    let e = p + line_len(s, p);
    if e < s.len() {
        e + 1
    } else {
        s.len() as int
    }
}

/// The entry of the first line of `s` at or after `p` that holds a token, and where
/// the line after it starts; `None` where no line left holds a token.
pub open spec fn next_entry(s: Seq<char>, p: int) -> Option<
    (Result<EntryModel, TokenizerErrorModel>, int),
>
    decreases s.len() - p,
{
    if p < 0 || p >= s.len() {
        None
    } else {
        let toks = line_tokens(s.subrange(p, p + line_len(s, p)));
        if toks.len() == 0 {
            next_entry(s, next_line(s, p))
        } else {
            Some((parse_line(toks), next_line(s, p)))
        }
    }
}

/// The entries of a zone-file text, one for each line that holds a token, in order.
pub struct EntryIter<'a> {
    feed: &'a str,
    chars: Vec<char>,
    pos: usize,
}

proof fn lemma_line_len(s: Seq<char>, p: int)
    requires
        0 <= p <= s.len(),
    ensures
        p + line_len(s, p) <= s.len(),
        forall|j: int| p <= j < p + line_len(s, p) ==> #[trigger] s[j] != '\n',
        p + line_len(s, p) < s.len() ==> s[p + line_len(s, p)] == '\n',
    decreases s.len() - p,
{
    if 0 <= p < s.len() && s[p] != '\n' {
        lemma_line_len(s, p + 1);
    }
}

impl<'a> EntryIter<'a> {
    pub closed spec fn text(&self) -> Seq<char> {
        self.feed@
    }

    pub closed spec fn position(&self) -> int {
        self.pos as int
    }

    pub closed spec fn wf(&self) -> bool {
        &&& self.chars@ == self.feed@
        &&& self.pos <= self.chars@.len()
    }

    /// An iterator over the entries of `feed`, from its first line.
    pub fn new(feed: &'a str) -> (r: Self)
        ensures
            r.wf(),
            r.text() == feed@,
            r.position() == 0,
    {
        EntryIter { feed, chars: chars_of(feed), pos: 0 }
    }

    /// The entry of the next line that holds a token, or `None` when no such line
    /// is left. A line that cannot be read gives an error, and the lines after it
    /// are read as usual.
    pub fn next(&mut self) -> (r: Option<Result<Entry<'a>, TokenizerError<'a>>>)
        requires
            old(self).wf(),
        ensures
            final(self).wf(),
            final(self).text() == old(self).text(),
            match next_entry(old(self).text(), old(self).position()) {
                None => r is None && final(self).position() == old(self).text().len(),
                Some(x) => r is Some && result_model(r->0) == x.0 && final(self).position() == x.1,
            },
    {
        let ghost s = self.feed@;
        loop
            invariant
                self.wf(),
                self.feed@ == s,
                old(self).feed@ == s,
                next_entry(s, old(self).position()) == next_entry(s, self.position()),
            decreases s.len() - self.pos,
        {
            if self.pos >= self.chars.len() {
                return None;
            }
            let start = self.pos;
            let mut end = start;
            let mut line_chars: Vec<char> = Vec::new();
            while end < self.chars.len() && self.chars[end] != '\n'
                invariant
                    self.wf(),
                    self.feed@ == s,
                    start <= end <= s.len(),
                    line_len(s, start as int) == (end - start) + line_len(s, end as int),
                    line_chars@ == s.subrange(start as int, end as int),
                decreases s.len() - end,
            {
                line_chars.push(self.chars[end]);
                end = end + 1;
                assert(line_chars@ =~= s.subrange(start as int, end as int));
            }
            proof {
                lemma_line_len(s, start as int);
                assert(line_len(s, end as int) == 0);
            }
            self.pos = if end < self.chars.len() { end + 1 } else { end };
            assert(self.pos == next_line(s, start as int));
            let line = self.feed.substring_char(start, end);
            let toks = tokenize_line(line, &line_chars);
            assert(next_entry(s, start as int) == if toks.len() == 0 {
                next_entry(s, self.pos as int)
            } else {
                Some((parse_line(tokens_model(toks@)), self.pos as int))
            });
            if toks.len() > 0 {
                return Some(Self::parse_tokens(&toks));
            }
        }
    }

    /// The entry that the tokens of one line make.
    fn parse_tokens(toks: &Vec<EntryTextToken<'a>>) -> (r: Result<Entry<'a>, TokenizerError<'a>>)
        requires
            toks@.len() > 0,
        ensures
            result_model(r) == parse_line(tokens_model(toks@)),
    {
        let ghost m = tokens_model(toks@);
        let origin = ['$', 'O', 'R', 'I', 'G', 'I', 'N'];
        let incl = ['$', 'I', 'N', 'C', 'L', 'U', 'D', 'E'];
        assert(origin@ =~= origin_word());
        assert(incl@ =~= include_word());
        if let EntryTextToken::TextLiteral(first) = toks[0] {
            let first_chars = chars_of(first);
            if toks.len() == 2 && spells_word(&first_chars, &origin) {
                if let EntryTextToken::TextLiteral(origin) = toks[1] {
                    return Ok(Entry::Origin { origin });
                }
            }
            if toks.len() == 2 && spells_word(&first_chars, &incl) {
                if let EntryTextToken::TextLiteral(file_name) = toks[1] {
                    return Ok(Entry::Include { file_name, domain_name: None });
                }
            }
            if toks.len() == 3 && spells_word(&first_chars, &incl) {
                if let (EntryTextToken::TextLiteral(file_name), EntryTextToken::TextLiteral(domain_name)) = (toks[1], toks[2]) {
                    return Ok(Entry::Include { file_name, domain_name: Some(domain_name) });
                }
            }
            let rest = slice_from(toks.as_slice(), 1);
            assert(tokens_model(rest@) =~= m.skip(1));
            Self::parse_rr(Some(first), rest)
        } else {
            let rest = slice_from(toks.as_slice(), 1);
            assert(tokens_model(rest@) =~= m.skip(1));
            Self::parse_rr(None, rest)
        }
    }

    /// A record entry whose rdata is the text of each token of `rest`, in order.
    fn new_rr(
        domain_name: Option<&'a str>,
        ttl: Option<&'a str>,
        rclass: Option<&'a str>,
        rtype: &'a str,
        rest: &[EntryTextToken<'a>],
    ) -> (r: Entry<'a>)
        ensures
            r.model() == record(
                opt_model(domain_name),
                opt_model(ttl),
                opt_model(rclass),
                rtype@,
                tokens_model(rest@),
            ),
    {
        let mut rdata: Vec<&'a str> = Vec::new();
        let mut i: usize = 0;
        while i < rest.len()
            invariant
                i <= rest.len(),
                rdata@.len() == i,
                forall|k: int| 0 <= k < i ==> (#[trigger] rdata@[k])@ == rest@[k].model().text(),
            decreases rest.len() - i,
        {
            rdata.push(rest[i].text());
            i = i + 1;
        }
        let r = Entry::ResourceRecord { domain_name, ttl, rclass, rtype, rdata };
        proof {
            let m = rdata@.map_values(|s: &'a str| s@);
            let n = tokens_model(rest@).map_values(|t: TokenModel| t.text());
            assert(m =~= n);
        }
        r
    }

    /// The type comes first: everything after it is rdata.
    fn parse_rr_rtype_first(
        domain_name: Option<&'a str>,
        rtype: &'a str,
        rest: &[EntryTextToken<'a>],
    ) -> (r: Result<Entry<'a>, TokenizerError<'a>>)
        ensures
            result_model(r) == Ok::<EntryModel, TokenizerErrorModel>(
                record(opt_model(domain_name), None, None, rtype@, tokens_model(rest@)),
            ),
    {
        Ok(Self::new_rr(domain_name, None, None, rtype, rest))
    }

    /// The type comes second: the token before it is a class or a time to live.
    fn parse_rr_rtype_second(
        domain_name: Option<&'a str>,
        token_1: &'a str,
        rtype: &'a str,
        rest: &[EntryTextToken<'a>],
    ) -> (r: Result<Entry<'a>, TokenizerError<'a>>)
        ensures
            result_model(r) == (if is_class_token(token_1@) {
                Ok(record(opt_model(domain_name), None, Some(token_1@), rtype@, tokens_model(rest@)))
            } else if is_ttl_token(token_1@) {
                Ok(record(opt_model(domain_name), Some(token_1@), None, rtype@, tokens_model(rest@)))
            } else {
                Err(TokenizerErrorModel::UnknownToken(token_1@))
            }),
    {
        if is_class(token_1) {
            Ok(Self::new_rr(domain_name, None, Some(token_1), rtype, rest))
        } else if is_ttl(token_1) {
            Ok(Self::new_rr(domain_name, Some(token_1), None, rtype, rest))
        } else {
            Err(TokenizerError::UnknownToken(token_1))
        }
    }

    /// The type comes third: the two tokens before it are a class and a time to
    /// live, in either order.
    fn parse_rr_rtype_third(
        domain_name: Option<&'a str>,
        token_1: &'a str,
        token_2: &'a str,
        rtype: &'a str,
        rest: &[EntryTextToken<'a>],
    ) -> (r: Result<Entry<'a>, TokenizerError<'a>>)
        ensures
            result_model(r) == (if is_class_token(token_1@) && is_ttl_token(token_2@) {
                Ok(record(opt_model(domain_name), Some(token_2@), Some(token_1@), rtype@, tokens_model(rest@)))
            } else if is_ttl_token(token_1@) && is_class_token(token_2@) {
                Ok(record(opt_model(domain_name), Some(token_1@), Some(token_2@), rtype@, tokens_model(rest@)))
            } else {
                Err(TokenizerErrorModel::TwoUnknownTokens(token_1@, token_2@))
            }),
    {
        if is_class(token_1) && is_ttl(token_2) {
            Ok(Self::new_rr(domain_name, Some(token_2), Some(token_1), rtype, rest))
        } else if is_ttl(token_1) && is_class(token_2) {
            Ok(Self::new_rr(domain_name, Some(token_1), Some(token_2), rtype, rest))
        } else {
            Err(TokenizerError::TwoUnknownTokens(token_1, token_2))
        }
    }

    /// Reads the tokens that follow the owner name of a record line.
    fn parse_rr(domain_name: Option<&'a str>, toks: &[EntryTextToken<'a>]) -> (r: Result<
        Entry<'a>,
        TokenizerError<'a>,
    >)
        ensures
            result_model(r) == parse_tail(opt_model(domain_name), tokens_model(toks@)),
    {
        let ghost m = tokens_model(toks@);
        if toks.len() < 2 {
            return Err(TokenizerError::UnknownTokens);
        }
        let (token_1, token_2) = match (toks[0], toks[1]) {
            (EntryTextToken::TextLiteral(a), EntryTextToken::TextLiteral(b)) => (a, b),
            _ => {
                return Err(TokenizerError::UnknownTokens);
            },
        };
        assert(m[0].text() == token_1@ && m[1].text() == token_2@);
        if !is_class(token_1) && is_type(token_1) {
            let rest = slice_from(toks, 1);
            assert(tokens_model(rest@) =~= m.skip(1));
            return Self::parse_rr_rtype_first(domain_name, token_1, rest);
        }
        if !is_class(token_2) && is_type(token_2) {
            let rest = slice_from(toks, 2);
            assert(tokens_model(rest@) =~= m.skip(2));
            return Self::parse_rr_rtype_second(domain_name, token_1, token_2, rest);
        }
        if toks.len() >= 3 {
            let token_3 = toks[2].text();
            if !is_class(token_3) && is_type(token_3) {
                let rest = slice_from(toks, 3);
                assert(tokens_model(rest@) =~= m.skip(3));
                return Self::parse_rr_rtype_third(domain_name, token_1, token_2, token_3, rest);
            } else {
                return Err(TokenizerError::TwoUnknownTokens(token_1, token_2));
            }
        }
        Err(TokenizerError::TwoUnknownTokens(token_1, token_2))
    }
}

/// A line that holds no token: blanks, then nothing more or a comment.
pub open spec fn blank_or_comment(line: Seq<char>) -> bool {
    let k = blanks_from(line, 0) as int;
    k == line.len() || line[k] == ';'
}

/// Position `p` of `s` starts a line.
pub open spec fn starts_line(s: Seq<char>, p: int) -> bool {
    p == 0 || (0 < p <= s.len() && s[p - 1] == '\n')
}

/// Every line of `s` is blank or a comment.
pub open spec fn only_blank_lines(s: Seq<char>) -> bool {
    forall|p: int|
        0 <= p < s.len() && #[trigger] starts_line(s, p) ==> blank_or_comment(
            s.subrange(p, p + line_len(s, p)),
        )
}

proof fn lemma_blank_prefix_lexes_empty(line: Seq<char>, k: int, i: int, start: int)
    requires
        0 <= i <= k <= line.len(),
        forall|j: int| 0 <= j < k ==> is_blank(#[trigger] line[j]),
        k == line.len() || line[k] == ';',
    ensures
        lex(line, i, start, LexMode::Between).len() == 0,
    decreases k - i,
{
    if i < k {
        lemma_blank_prefix_lexes_empty(line, k, i + 1, start);
    }
}

/// A text whose every line is blank or a comment gives no entry at all.
pub proof fn lemma_blank_text_has_no_entries(s: Seq<char>)
    requires
        only_blank_lines(s),
    ensures
        next_entry(s, 0) == None::<(Result<EntryModel, TokenizerErrorModel>, int)>,
{
    lemma_blank_lines_from(s, 0);
}

proof fn lemma_blank_lines_from(s: Seq<char>, p: int)
    requires
        only_blank_lines(s),
        0 <= p <= s.len(),
        starts_line(s, p) || p == s.len(),
    ensures
        next_entry(s, p) == None::<(Result<EntryModel, TokenizerErrorModel>, int)>,
    decreases s.len() - p,
{
    if p < s.len() {
        lemma_line_len(s, p);
        let line = s.subrange(p, p + line_len(s, p));
        assert(starts_line(s, p));
        assert(blank_or_comment(line));
        let k = blanks_from(line, 0) as int;
        lemma_blanks_bound(line, 0);
        lemma_blank_prefix_lexes_empty(line, k, 0, 0);
        assert(line_tokens(line).len() == 0);
        let q = next_line(s, p);
        if q < s.len() {
            assert(starts_line(s, q));
        }
        lemma_blank_lines_from(s, q);
    }
}

/// Over a whole text, each line that holds a token gives its own entry, an error
/// included, and reading goes on at the line after it; a line without tokens is
/// skipped. So the entries come one per such line, in the order of the lines.
pub proof fn lemma_each_line_gives_its_entry(s: Seq<char>, p: int)
    requires
        0 <= p < s.len(),
        starts_line(s, p),
    ensures
        p < next_line(s, p) <= s.len(),
        next_line(s, p) == s.len() || starts_line(s, next_line(s, p)),
        line_tokens(s.subrange(p, p + line_len(s, p))).len() > 0 ==> next_entry(s, p) == Some(
            (parse_line(line_tokens(s.subrange(p, p + line_len(s, p)))), next_line(s, p)),
        ),
        line_tokens(s.subrange(p, p + line_len(s, p))).len() == 0 ==> next_entry(s, p) == next_entry(
            s,
            next_line(s, p),
        ),
{
    lemma_line_len(s, p);
}

proof fn lemma_line_len_exact(s: Seq<char>, p: int, n: int)
    requires
        0 <= p,
        0 <= n,
        p + n <= s.len(),
        forall|j: int| p <= j < p + n ==> #[trigger] s[j] != '\n',
        p + n == s.len() || s[p + n] == '\n',
    ensures
        line_len(s, p) == n,
    decreases n,
{
    if n > 0 {
        lemma_line_len_exact(s, p + 1, n - 1);
    }
}

/// Each line is read on its own: in a text of two lines, whatever the first line
/// gives, an error included, its entry comes first and the second line's entry
/// comes next.
pub proof fn lemma_lines_read_independently(l1: Seq<char>, l2: Seq<char>)
    requires
        forall|j: int| 0 <= j < l1.len() ==> #[trigger] l1[j] != '\n',
        forall|j: int| 0 <= j < l2.len() ==> #[trigger] l2[j] != '\n',
        line_tokens(l1).len() > 0,
        line_tokens(l2).len() > 0,
    ensures
        next_entry(l1 + seq!['\n'] + l2, 0) == Some(
            (parse_line(line_tokens(l1)), (l1.len() + 1) as int),
        ),
        next_entry(l1 + seq!['\n'] + l2, (l1.len() + 1) as int) == Some(
            (parse_line(line_tokens(l2)), (l1.len() + 1 + l2.len()) as int),
        ),
{
    let s = l1 + seq!['\n'] + l2;
    let n1 = l1.len() as int;
    assert forall|j: int| 0 <= j < n1 implies #[trigger] s[j] != '\n' by {
        assert(s[j] == l1[j]);
    }
    lemma_line_len_exact(s, 0, n1);
    assert(s.subrange(0, n1) =~= l1);
    assert forall|j: int| n1 + 1 <= j < s.len() implies #[trigger] s[j] != '\n' by {
        assert(s[j] == l2[j - n1 - 1]);
    }
    lemma_line_len_exact(s, n1 + 1, l2.len() as int);
    assert(s.subrange(n1 + 1, s.len() as int) =~= l2);
}

fn slice_from<'b, 'a>(toks: &'b [EntryTextToken<'a>], start: usize) -> (r: &'b [EntryTextToken<'a>])
    requires
        start <= toks@.len(),
    ensures
        r@ == toks@.skip(start as int),
{
    let r = vstd::slice::slice_subrange(toks, start, toks.len());
    assert(r@ =~= toks@.skip(start as int));
    r
}

} // verus!
