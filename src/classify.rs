use vstd::prelude::*;

verus! {

/// The ASCII upper-case form of a character; other characters are unchanged.
pub open spec fn upper(c: char) -> char {
    if 'a' <= c && c <= 'z' {
        ((c as u8) - 32) as u8 as char
    } else {
        c
    }
}

pub open spec fn is_digit(c: char) -> bool {
    '0' <= c && c <= '9'
}

pub open spec fn is_letter(c: char) -> bool {
    ('a' <= c && c <= 'z') || ('A' <= c && c <= 'Z')
}

/// A unit suffix of a time value: seconds, minutes, hours, days or weeks.
pub open spec fn is_time_unit(c: char) -> bool {
    let u = upper(c);
    u == 'S' || u == 'M' || u == 'H' || u == 'D' || u == 'W'
}

/// `s`, compared without regard to ASCII case, spells the upper-case word `w`.
pub open spec fn spells(s: Seq<char>, w: Seq<char>) -> bool {
    s.len() == w.len() && forall|i: int| 0 <= i < s.len() ==> upper(#[trigger] s[i]) == w[i]
}

/// A class mnemonic (`IN`, `CS`, `CH`, `HS`, `NONE`, `ANY`) in any case, or the
/// generic form `CLASS` followed by one or more decimal digits.
pub open spec fn is_class_token(s: Seq<char>) -> bool {
    ||| spells(s, seq!['I', 'N'])
    ||| spells(s, seq!['C', 'S'])
    ||| spells(s, seq!['C', 'H'])
    ||| spells(s, seq!['H', 'S'])
    ||| spells(s, seq!['N', 'O', 'N', 'E'])
    ||| spells(s, seq!['A', 'N', 'Y'])
    ||| (s.len() > 5 && spells(s.take(5), seq!['C', 'L', 'A', 'S', 'S'])
        && forall|i: int| 5 <= i < s.len() ==> is_digit(#[trigger] s[i]))
}

/// A type mnemonic: a letter followed by letters, digits or hyphens.
pub open spec fn is_type_token(s: Seq<char>) -> bool {
    &&& s.len() > 0
    &&& is_letter(s[0])
    &&& forall|i: int| 0 <= i < s.len() ==> is_letter(#[trigger] s[i]) || is_digit(s[i]) || s[i] == '-'
}

/// A time to live: decimal digits, where each run of digits may carry one unit suffix
/// (`3600`, `1h30m`, `2D`).
pub open spec fn is_ttl_token(s: Seq<char>) -> bool {
    &&& s.len() > 0
    &&& is_digit(s[0])
    &&& forall|i: int|
        0 <= i < s.len() ==> is_digit(#[trigger] s[i]) || (is_time_unit(s[i]) && is_digit(s[i - 1]))
}

fn upper_char(c: char) -> (r: char)
    ensures
        r == upper(c),
{
    if 'a' <= c && c <= 'z' {
        ((c as u8) - 32) as char
    } else {
        c
    }
}

/// Whether `s` spells the upper-case word held in `w`, ignoring ASCII case.
pub(crate) fn spells_word(s: &Vec<char>, w: &[char]) -> (r: bool)
    ensures
        r == spells(s@, w@),
{
    if s.len() != w.len() {
        return false;
    }
    let mut i: usize = 0;
    while i < s.len()
        invariant
            s@.len() == w@.len(),
            i <= s.len(),
            forall|k: int| 0 <= k < i ==> upper(#[trigger] s@[k]) == w@[k],
        decreases s.len() - i,
    {
        if upper_char(s[i]) != w[i] {
            return false;
        }
        i = i + 1;
    }
    true
}

fn is_class_chars(s: &Vec<char>) -> (r: bool)
    ensures
        r == is_class_token(s@),
{
    let in_ = ['I', 'N'];
    let cs = ['C', 'S'];
    let ch = ['C', 'H'];
    let hs = ['H', 'S'];
    let none = ['N', 'O', 'N', 'E'];
    let any = ['A', 'N', 'Y'];
    proof {
        assert(in_@ =~= seq!['I', 'N']);
        assert(cs@ =~= seq!['C', 'S']);
        assert(ch@ =~= seq!['C', 'H']);
        assert(hs@ =~= seq!['H', 'S']);
        assert(none@ =~= seq!['N', 'O', 'N', 'E']);
        assert(any@ =~= seq!['A', 'N', 'Y']);
    }
    if spells_word(s, &in_) || spells_word(s, &cs) || spells_word(s, &ch) || spells_word(s, &hs)
        || spells_word(s, &none) || spells_word(s, &any) {
        return true;
    }
    if s.len() <= 5 {
        return false;
    }
    let w = ['C', 'L', 'A', 'S', 'S'];
    let mut i: usize = 0;
    while i < 5
        invariant
            s@.len() > 5,
            w@ == seq!['C', 'L', 'A', 'S', 'S'],
            i <= 5,
            forall|k: int| 0 <= k < i ==> upper(#[trigger] s@[k]) == w@[k],
        decreases 5 - i,
    {
        if upper_char(s[i]) != w[i] {
            assert(upper(s@.take(5)[i as int]) != w@[i as int]);
            return false;
        }
        i = i + 1;
    }
    assert(spells(s@.take(5), seq!['C', 'L', 'A', 'S', 'S']));
    let mut j: usize = 5;
    while j < s.len()
        invariant
            5 <= j <= s.len(),
            forall|k: int| 5 <= k < j ==> is_digit(#[trigger] s@[k]),
        decreases s.len() - j,
    {
        if !('0' <= s[j] && s[j] <= '9') {
            return false;
        }
        j = j + 1;
    }
    true
}

fn is_type_chars(s: &Vec<char>) -> (r: bool)
    ensures
        r == is_type_token(s@),
{
    if s.len() == 0 {
        return false;
    }
    let mut i: usize = 0;
    while i < s.len()
        invariant
            i <= s.len(),
            forall|k: int| 0 <= k < i ==> is_letter(#[trigger] s@[k]) || is_digit(s@[k]) || s@[k] == '-',
        decreases s.len() - i,
    {
        let c = s[i];
        let ok = ('a' <= c && c <= 'z') || ('A' <= c && c <= 'Z') || ('0' <= c && c <= '9') || c == '-';
        if !ok {
            return false;
        }
        i = i + 1;
    }
    let c = s[0];
    ('a' <= c && c <= 'z') || ('A' <= c && c <= 'Z')
}

fn is_ttl_chars(s: &Vec<char>) -> (r: bool)
    ensures
        r == is_ttl_token(s@),
{
    if s.len() == 0 || !('0' <= s[0] && s[0] <= '9') {
        return false;
    }
    let mut i: usize = 0;
    while i < s.len()
        invariant
            s@.len() > 0,
            is_digit(s@[0]),
            i <= s.len(),
            forall|k: int|
                0 <= k < i ==> is_digit(#[trigger] s@[k]) || (is_time_unit(s@[k]) && is_digit(s@[k - 1])),
        decreases s.len() - i,
    {
        let c = s[i];
        if !('0' <= c && c <= '9') {
            let u = upper_char(c);
            let unit = u == 'S' || u == 'M' || u == 'H' || u == 'D' || u == 'W';
            if !(unit && i > 0 && '0' <= s[i - 1] && s[i - 1] <= '9') {
                return false;
            }
        }
        i = i + 1;
    }
    true
}

/// The characters of `s`, in order.
pub(crate) fn chars_of(s: &str) -> (r: Vec<char>)
    ensures
        r@ == s@,
{
    let mut v: Vec<char> = Vec::new();
    for c in it: s.chars()
        invariant
            v@ == it.seq().take(it.index() as int),
            it.seq() == s@,
    {
        v.push(c);
    }
    v
}

/// Whether `s` names a class.
pub fn is_class(s: &str) -> (r: bool)
    ensures
        r == is_class_token(s@),
{
    is_class_chars(&chars_of(s))
}

/// Whether `s` has the shape of a type mnemonic.
pub fn is_type(s: &str) -> (r: bool)
    ensures
        r == is_type_token(s@),
{
    is_type_chars(&chars_of(s))
}

/// Whether `s` has the shape of a time to live.
pub fn is_ttl(s: &str) -> (r: bool)
    ensures
        r == is_ttl_token(s@),
{
    is_ttl_chars(&chars_of(s))
}

} // verus!
