use vstd::prelude::*;
use vstd::string::StringSliceAdditionalSpecFns;
use crate::domain_name::WireError;

verus! {

/// The text is longer than the 255 bytes that a character string can hold.
#[derive(Clone, Copy, PartialEq, Eq, Hash, Debug)]
pub struct StringTooLong;

/// The wire form of one character string: its length, then its bytes.
pub open spec fn string_wire(s: Seq<u8>) -> Seq<u8> {
    seq![s.len() as u8] + s
}

/// A character string: at most 255 bytes.
#[derive(PartialEq, Eq, Hash, Debug)]
pub struct CharacterString {
    bytes: Vec<u8>,
}

impl View for CharacterString {
    type V = Seq<u8>;

    closed spec fn view(&self) -> Seq<u8> {
        self.bytes@
    }
}

impl Clone for CharacterString {
    fn clone(&self) -> (r: Self)
        ensures
            r@ == self@,
    {
        proof {
            use_type_invariant(self);
        }
        let mut bytes: Vec<u8> = Vec::new();
        let mut i: usize = 0;
        while i < self.bytes.len()
            invariant
                i <= self.bytes@.len(),
                self.bytes@.len() <= 255,
                bytes@ == self.bytes@.take(i as int),
            decreases self.bytes.len() - i,
        {
            bytes.push(self.bytes[i]);
            i = i + 1;
            assert(bytes@ =~= self.bytes@.take(i as int));
        }
        assert(bytes@ =~= self.bytes@);
        CharacterString { bytes }
    }
}

impl CharacterString {
    #[verifier::type_invariant]
    spec fn inv(&self) -> bool {
        self.bytes@.len() <= 255
    }

    /// How many bytes the string holds: at most 255.
    pub fn len(&self) -> (r: usize)
        ensures
            r == self@.len(),
            r <= 255,
    {
        proof {
            use_type_invariant(self);
        }
        self.bytes.len()
    }

    /// The string of the bytes of `s`, if there are at most 255 of them.
    pub fn from_utf8(s: &str) -> (r: Result<CharacterString, StringTooLong>)
        ensures
            s.spec_bytes().len() <= 255 ==> r is Ok && r->Ok_0@ == s.spec_bytes(),
            s.spec_bytes().len() > 255 ==> r is Err,
    {
        let b = s.as_bytes();
        if b.len() > 255 {
            return Err(StringTooLong);
        }
        let mut bytes: Vec<u8> = Vec::new();
        let mut i: usize = 0;
        while i < b.len()
            invariant
                i <= b@.len(),
                bytes@ == b@.take(i as int),
            decreases b.len() - i,
        {
            bytes.push(b[i]);
            i = i + 1;
            assert(bytes@ =~= b@.take(i as int));
        }
        assert(bytes@ =~= b@);
        Ok(CharacterString { bytes })
    }

    /// The bytes of the string.
    pub fn as_bytes(&self) -> (r: &[u8])
        ensures
            r@ == self@,
    {
        self.bytes.as_slice()
    }

    /// Appends the wire form of the string to `out`.
    pub fn to_wire(&self, out: &mut Vec<u8>)
        ensures
            final(out)@ == old(out)@ + string_wire(self@),
    {
        proof {
            use_type_invariant(self);
        }
        let ghost start = out@;
        out.push(self.bytes.len() as u8);
        let ghost mid = out@;
        let mut j: usize = 0;
        while j < self.bytes.len()
            invariant
                j <= self.bytes@.len(),
                out@ == mid + self.bytes@.take(j as int),
            decreases self.bytes.len() - j,
        {
            out.push(self.bytes[j]);
            j = j + 1;
            assert(out@ =~= mid + self.bytes@.take(j as int));
        }
        assert(self.bytes@.take(j as int) =~= self.bytes@);
        assert(out@ =~= start + string_wire(self@));
    }

    /// Reads the string that starts at `p` of `b`; gives it and the position after it.
    pub fn from_wire(b: &[u8], p: usize) -> (r: Result<(CharacterString, usize), WireError>)
        ensures
            p < b@.len() && p + 1 + b@[p as int] <= b@.len() ==> r is Ok
                && r->Ok_0.0@ == b@.subrange(p + 1, p + 1 + b@[p as int])
                && r->Ok_0.1 == p + 1 + b@[p as int],
            !(p < b@.len() && p + 1 + b@[p as int] <= b@.len()) ==> r == Err::<
                (CharacterString, usize),
                WireError,
            >(WireError::Truncated),
    {
        let blen = b.len();
        if p >= blen {
            return Err(WireError::Truncated);
        }
        let n = b[p] as usize;
        if n > blen - p - 1 {
            return Err(WireError::Truncated);
        }
        let base = p + 1;
        let mut bytes: Vec<u8> = Vec::new();
        let mut j: usize = 0;
        while j < n
            invariant
                blen == b@.len(),
                base == p + 1,
                base + n <= b@.len(),
                j <= n,
                bytes@ == b@.subrange(base as int, base + j),
            decreases n - j,
        {
            bytes.push(b[base + j]);
            j = j + 1;
            assert(bytes@ =~= b@.subrange(base as int, base + j));
        }
        Ok((CharacterString { bytes }, base + n))
    }
}

} // verus!
