use vstd::prelude::*;
use crate::entry::{EntryTextToken, TokenModel, tokens_model};

verus! {

pub open spec fn is_blank(c: char) -> bool {
    c == ' ' || c == '\t' || c == '\r'
}

/// Where the lexer stands: between tokens, inside a bare word, or inside quotes.
pub enum LexMode {
    Between,
    Word,
    Quoted,
}

/// The spans `(start, end)` of the literals of line `s` from position `i` on, where
/// `start` opens the token that is being read in `mode`. Blanks part words; `;`
/// outside quotes starts a comment that runs to the end of the line; a quoted
/// literal is the text between its quotes, and an unclosed one runs to the end.
pub open spec fn lex(s: Seq<char>, i: int, start: int, mode: LexMode) -> Seq<(int, int)>
    decreases s.len() - i,
{
    if i >= s.len() {
        match mode {
            LexMode::Between => Seq::empty(),
            _ => seq![(start, s.len() as int)],
        }
    } else {
        let c = s[i];
        match mode {
            LexMode::Between => if is_blank(c) {
                lex(s, i + 1, start, LexMode::Between)
            } else if c == ';' {
                Seq::empty()
            } else if c == '"' {
                lex(s, i + 1, i + 1, LexMode::Quoted)
            } else {
                lex(s, i + 1, i, LexMode::Word)
            },
            LexMode::Word => if is_blank(c) {
                seq![(start, i)] + lex(s, i + 1, i + 1, LexMode::Between)
            } else if c == ';' {
                seq![(start, i)]
            } else if c == '"' {
                seq![(start, i)] + lex(s, i + 1, i + 1, LexMode::Quoted)
            } else {
                lex(s, i + 1, start, LexMode::Word)
            },
            LexMode::Quoted => if c == '"' {
                seq![(start, i)] + lex(s, i + 1, i + 1, LexMode::Between)
            } else {
                lex(s, i + 1, start, LexMode::Quoted)
            },
        }
    }
}

/// How many blanks open `s` from position `i` on.
pub open spec fn blanks_from(s: Seq<char>, i: int) -> nat
    decreases s.len() - i,
{
    if 0 <= i < s.len() && is_blank(s[i]) {
        1 + blanks_from(s, i + 1)
    } else {
        0
    }
}

pub open spec fn span_literal(s: Seq<char>, p: (int, int)) -> TokenModel {
    TokenModel::Literal(s.subrange(p.0, p.1))
}

/// The tokens of one line: none if it holds no literal; else its literals, after
/// a separator for the blanks that open it, if any.
pub open spec fn line_tokens(s: Seq<char>) -> Seq<TokenModel> {
    let lits = lex(s, 0, 0, LexMode::Between).map_values(|p: (int, int)| span_literal(s, p));
    let k = blanks_from(s, 0);
    if lits.len() == 0 {
        Seq::empty()
    } else if k > 0 {
        seq![TokenModel::Blank(s.take(k as int))] + lits
    } else {
        lits
    }
}

/// The blanks that open `s` from `i` on end inside `s`, at a character that is no blank.
pub proof fn lemma_blanks_bound(s: Seq<char>, i: int)
    requires
        0 <= i,
    ensures
        i + blanks_from(s, i) <= if i <= s.len() { s.len() as int } else { i },
        forall|j: int| i <= j < i + blanks_from(s, i) ==> is_blank(#[trigger] s[j]),
        i + blanks_from(s, i) < s.len() ==> !is_blank(s[i + blanks_from(s, i)]),
    decreases s.len() - i,
{
    if 0 <= i < s.len() && is_blank(s[i]) {
        lemma_blanks_bound(s, i + 1);
    }
}

/// Splits one line into tokens; each literal is a slice of `line`.
pub fn tokenize_line<'a>(line: &'a str, lc: &Vec<char>) -> (r: Vec<EntryTextToken<'a>>)
    requires
        lc@ == line@,
    ensures
        tokens_model(r@) == line_tokens(line@),
{
    let ghost s = line@;
    let ghost all = lex(s, 0, 0, LexMode::Between);
    let mut lits: Vec<EntryTextToken<'a>> = Vec::new();
    let ghost mut spans: Seq<(int, int)> = Seq::empty();
    let mut i: usize = 0;
    let mut start: usize = 0;
    let mut mode: u8 = 0;
    let mut stop = false;
    while i < lc.len() && !stop
        invariant
            lc@ == s,
            s == line@,
            i <= lc@.len(),
            start <= i,
            mode <= 2,
            stop ==> mode == 0 && spans == all,
            !stop && mode == 0 ==> spans + lex(s, i as int, start as int, LexMode::Between) == all,
            !stop && mode == 1 ==> spans + lex(s, i as int, start as int, LexMode::Word) == all,
            !stop && mode == 2 ==> spans + lex(s, i as int, start as int, LexMode::Quoted) == all,
            tokens_model(lits@) == spans.map_values(|p: (int, int)| span_literal(s, p)),
        decreases lc.len() - i,
    {
        let c = lc[i];
        let blank = c == ' ' || c == '\t' || c == '\r';
        if mode == 0 {
            if blank {
            } else if c == ';' {
                assert(spans + Seq::<(int, int)>::empty() =~= spans);
                stop = true;
            } else if c == '"' {
                mode = 2;
                start = i + 1;
            } else {
                mode = 1;
                start = i;
            }
        } else if mode == 1 && (blank || c == ';' || c == '"') {
            let t = line.substring_char(start, i);
            proof {
                let old_spans = spans;
                spans = spans.push((start as int, i as int));
                assert(tokens_model(lits@.push(EntryTextToken::TextLiteral(t))) =~= tokens_model(lits@).push(
                    EntryTextToken::TextLiteral(t).model(),
                ));
                assert(spans.map_values(|p: (int, int)| span_literal(s, p)) =~= old_spans.map_values(
                    |p: (int, int)| span_literal(s, p),
                ).push(span_literal(s, (start as int, i as int))));
                assert(old_spans + (seq![(start as int, i as int)] + lex(s, i + 1, i + 1, LexMode::Between))
                    =~= spans + lex(s, i + 1, i + 1, LexMode::Between));
                assert(old_spans + (seq![(start as int, i as int)] + lex(s, i + 1, i + 1, LexMode::Quoted))
                    =~= spans + lex(s, i + 1, i + 1, LexMode::Quoted));
                assert(old_spans + seq![(start as int, i as int)] =~= spans);
            }
            lits.push(EntryTextToken::TextLiteral(t));
            if c == ';' {
                mode = 0;
                stop = true;
            } else {
                mode = if c == '"' { 2 } else { 0 };
                start = i + 1;
            }
        } else if mode == 2 && c == '"' {
            let t = line.substring_char(start, i);
            proof {
                let old_spans = spans;
                spans = spans.push((start as int, i as int));
                assert(tokens_model(lits@.push(EntryTextToken::TextLiteral(t))) =~= tokens_model(lits@).push(
                    EntryTextToken::TextLiteral(t).model(),
                ));
                assert(spans.map_values(|p: (int, int)| span_literal(s, p)) =~= old_spans.map_values(
                    |p: (int, int)| span_literal(s, p),
                ).push(span_literal(s, (start as int, i as int))));
                assert(old_spans + (seq![(start as int, i as int)] + lex(s, i + 1, i + 1, LexMode::Between))
                    =~= spans + lex(s, i + 1, i + 1, LexMode::Between));
            }
            lits.push(EntryTextToken::TextLiteral(t));
            mode = 0;
            start = i + 1;
        }
        i = i + 1;
    }
    if !stop && mode != 0 {
        let t = line.substring_char(start, lc.len());
        proof {
            let old_spans = spans;
            spans = spans.push((start as int, s.len() as int));
            assert(tokens_model(lits@.push(EntryTextToken::TextLiteral(t))) =~= tokens_model(lits@).push(
                EntryTextToken::TextLiteral(t).model(),
            ));
            assert(spans.map_values(|p: (int, int)| span_literal(s, p)) =~= old_spans.map_values(
                |p: (int, int)| span_literal(s, p),
            ).push(span_literal(s, (start as int, s.len() as int))));
            assert(old_spans + seq![(start as int, s.len() as int)] =~= spans);
        }
        lits.push(EntryTextToken::TextLiteral(t));
    } else if !stop {
        assert(spans + Seq::<(int, int)>::empty() =~= spans);
    }
    assert(spans == all);
    if lits.len() == 0 {
        return lits;
    }
    let mut k: usize = 0;
    while k < lc.len() && (lc[k] == ' ' || lc[k] == '\t' || lc[k] == '\r')
        invariant
            lc@ == s,
            k <= lc@.len(),
            blanks_from(s, 0) == k + blanks_from(s, k as int),
        decreases lc.len() - k,
    {
        k = k + 1;
    }
    if k == 0 {
        return lits;
    }
    let mut r: Vec<EntryTextToken<'a>> = Vec::new();
    r.push(EntryTextToken::Separator(line.substring_char(0, k)));
    let ghost head = r@;
    let ghost lm = lits@;
    r.append(&mut lits);
    proof {
        assert(r@ =~= head + lm);
        assert(tokens_model(r@) =~= tokens_model(head) + tokens_model(lm));
    }
    r
}

} // verus!
