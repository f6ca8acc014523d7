use vstd::prelude::*;
use vstd::string::StringSliceAdditionalSpecFns;
use crate::domain_name::{CDomainName, WireError, decode_name, name_from_text};

verus! {

/// Why the rdata tokens of a record could not be read as a record of a given type.
#[derive(Clone, Copy, PartialEq, Eq, Hash, Debug)]
pub enum TokenizedRecordError<'a> {
    /// Fewer tokens than the type needs: how many it needs, and how many came.
    TooFewRDataTokensError(usize, usize),
    /// More tokens than the type takes: how many it takes, and how many came.
    TooManyRDataTokensError(usize, usize),
    /// A token that is no domain name.
    InvalidDomainName(&'a str),
    /// A token too long for a character string.
    InvalidCharacterString(&'a str),
    /// A token that is no 16-bit decimal number.
    InvalidInteger(&'a str),
}

/// The labels of `b` where `b` holds one domain name and nothing after it.
pub open spec fn whole_name(b: Seq<u8>, p: int) -> Option<Seq<Seq<u8>>> {
    match decode_name(b, p) {
        Some(x) => if x.1 == b.len() {
            Some(x.0)
        } else {
            None
        },
        None => None,
    }
}

/// Reads a domain name that fills `b` from `p` to its end.
pub fn whole_name_from_wire(b: &[u8], p: usize) -> (r: Result<CDomainName, WireError>)
    ensures
        match whole_name(b@, p as int) {
            Some(ls) => r is Ok && r->Ok_0@ == ls && r->Ok_0.wf(),
            None => r is Err,
        },
{
    match CDomainName::from_wire(b, p) {
        Ok((name, q)) => if q == b.len() {
            Ok(name)
        } else {
            Err(WireError::TrailingBytes)
        },
        Err(e) => Err(e),
    }
}

/// A result with the value in its model.
pub open spec fn view_result<T: View, E>(r: Result<T, E>) -> Result<T::V, E> {
    match r {
        Ok(v) => Ok(v@),
        Err(e) => Err(e),
    }
}

/// What the rdata tokens of a record that holds one domain name give.
pub open spec fn single_name_rdata<'a>(rdata: Seq<&'a str>) -> Result<
    Seq<Seq<u8>>,
    TokenizedRecordError<'a>,
> {
    if rdata.len() == 0 {
        Err(TokenizedRecordError::TooFewRDataTokensError(1, 0))
    } else if rdata.len() > 1 {
        Err(TokenizedRecordError::TooManyRDataTokensError(1, rdata.len() as usize))
    } else {
        match name_from_text(rdata[0].spec_bytes()) {
            Some(ls) => Ok(ls),
            None => Err(TokenizedRecordError::InvalidDomainName(rdata[0])),
        }
    }
}

/// Reads the one token of a record whose rdata is a single domain name.
pub fn single_name_from_tokens<'a>(rdata: &[&'a str]) -> (r: Result<CDomainName, TokenizedRecordError<'a>>)
    ensures
        view_result(r) == single_name_rdata(rdata@),
        r is Ok ==> r->Ok_0.wf(),
{
    if rdata.len() == 0 {
        return Err(TokenizedRecordError::TooFewRDataTokensError(1, 0));
    }
    if rdata.len() > 1 {
        return Err(TokenizedRecordError::TooManyRDataTokensError(1, rdata.len()));
    }
    domain_name_token(rdata[0])
}

/// Reads one token as a domain name.
pub fn domain_name_token<'a>(t: &'a str) -> (r: Result<CDomainName, TokenizedRecordError<'a>>)
    ensures
        match name_from_text(t.spec_bytes()) {
            Some(ls) => r is Ok && r->Ok_0@ == ls && r->Ok_0.wf(),
            None => r == Err::<CDomainName, TokenizedRecordError<'a>>(
                TokenizedRecordError::InvalidDomainName(t),
            ),
        },
{
    match CDomainName::from_utf8(t) {
        Ok(name) => Ok(name),
        Err(_) => Err(TokenizedRecordError::InvalidDomainName(t)),
    }
}

pub open spec fn is_ascii_digit(c: u8) -> bool {
    48 <= c <= 57
}

/// The number that the decimal digits of `b` spell.
pub open spec fn decimal_value(b: Seq<u8>) -> int
    decreases b.len(),
{
    if b.len() == 0 {
        0
    } else {
        10 * decimal_value(b.drop_last()) + (b.last() - 48)
    }
}

/// The 16-bit number that `b` spells in decimal digits, if it spells one.
pub open spec fn decimal_u16(b: Seq<u8>) -> Option<u16> {
    if b.len() > 0 && (forall|i: int| 0 <= i < b.len() ==> is_ascii_digit(#[trigger] b[i]))
        && decimal_value(b) <= 65535 {
        Some(decimal_value(b) as u16)
    } else {
        None
    }
}

/// Reads a token of decimal digits as a 16-bit number.
pub fn u16_token<'a>(t: &'a str) -> (r: Result<u16, TokenizedRecordError<'a>>)
    ensures
        match decimal_u16(t.spec_bytes()) {
            Some(v) => r == Ok::<u16, TokenizedRecordError<'a>>(v),
            None => r == Err::<u16, TokenizedRecordError<'a>>(TokenizedRecordError::InvalidInteger(t)),
        },
{
    let b = t.as_bytes();
    if b.len() == 0 {
        return Err(TokenizedRecordError::InvalidInteger(t));
    }
    let mut acc: u32 = 0;
    let mut over = false;
    let mut i: usize = 0;
    while i < b.len()
        invariant
            i <= b@.len(),
            b@ == t.spec_bytes(),
            forall|k: int| 0 <= k < i ==> is_ascii_digit(#[trigger] b@[k]),
            !over ==> acc == decimal_value(b@.take(i as int)) && acc <= 65535,
            over ==> decimal_value(b@.take(i as int)) > 65535,
        decreases b.len() - i,
    {
        let c = b[i];
        if c < 48 || c > 57 {
            return Err(TokenizedRecordError::InvalidInteger(t));
        }
        assert(b@.take(i + 1).drop_last() =~= b@.take(i as int));
        if !over {
            acc = acc * 10 + (c - 48) as u32;
            if acc > 65535 {
                over = true;
            }
        }
        i = i + 1;
    }
    assert(b@.take(i as int) =~= b@);
    if over {
        return Err(TokenizedRecordError::InvalidInteger(t));
    }
    Ok(acc as u16)
}

} // verus!
