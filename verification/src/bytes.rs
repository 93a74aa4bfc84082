//! Byte-level helpers for reading `index.theme` files: ASCII trimming,
//! comparison, the first occurrence of a byte (through `memchr`) and signed
//! decimal integers (through `btoi`).
use vstd::prelude::*;

verus! {

/// ASCII whitespace as `u8::is_ascii_whitespace` defines it: space, horizontal
/// tab, line feed, form feed and carriage return.
pub open spec fn is_ascii_ws(b: u8) -> bool {
    b == 0x20u8 || b == 0x09u8 || b == 0x0au8 || b == 0x0cu8 || b == 0x0du8
}

/// `s` without its leading ASCII whitespace.
pub open spec fn trim_start_spec(s: Seq<u8>) -> Seq<u8>
    decreases s.len(),
{
    if s.len() > 0 && is_ascii_ws(s[0]) {
        trim_start_spec(s.drop_first())
    } else {
        s
    }
}

/// `s` without its trailing ASCII whitespace.
pub open spec fn trim_end_spec(s: Seq<u8>) -> Seq<u8>
    decreases s.len(),
{
    if s.len() > 0 && is_ascii_ws(s.last()) {
        trim_end_spec(s.drop_last())
    } else {
        s
    }
}

/// `s` without leading and trailing ASCII whitespace.
pub open spec fn trim_ascii_spec(s: Seq<u8>) -> Seq<u8> {
    trim_end_spec(trim_start_spec(s))
}

/// The index of the first `b` in `s`, if there is one.
pub open spec fn first_index(s: Seq<u8>, b: u8) -> Option<int>
    decreases s.len(),
{
    if s.len() == 0 {
        None
    } else if s[0] == b {
        Some(0)
    } else {
        match first_index(s.drop_first(), b) {
            Some(i) => Some(i + 1),
            None => None,
        }
    }
}

/// What `first_index` returns is a position of `b`, and no earlier position holds `b`.
pub proof fn lemma_first_index(s: Seq<u8>, b: u8)
    ensures
        first_index(s, b) matches Some(i) ==> {
            &&& 0 <= i < s.len()
            &&& s[i] == b
            &&& forall|j: int| 0 <= j < i ==> s[j] != b
        },
        first_index(s, b) is None ==> forall|j: int| 0 <= j < s.len() ==> s[j] != b,
    decreases s.len(),
{
    if s.len() > 0 && s[0] != b {
        lemma_first_index(s.drop_first(), b);
        assert forall|j: int| 1 <= j < s.len() implies s[j] == s.drop_first()[j - 1] by {}
    }
}

/// A position of `b` with no earlier `b` is what `first_index` returns.
pub proof fn lemma_first_index_unique(s: Seq<u8>, b: u8, i: int)
    requires
        0 <= i < s.len(),
        s[i] == b,
        forall|j: int| 0 <= j < i ==> s[j] != b,
    ensures
        first_index(s, b) == Some(i),
{
    lemma_first_index(s, b);
    match first_index(s, b) {
        Some(k) => {
            assert(k == i);
        },
        None => {
            assert(s[i] != b);
        },
    }
}

/// The integer that the decimal digits `d` denote.
pub open spec fn decimal_value(d: Seq<u8>) -> int
    decreases d.len(),
{
    if d.len() == 0 {
        0
    } else {
        decimal_value(d.drop_last()) * 10 + (d.last() - 0x30u8)
    }
}

/// Every byte of `d` is an ASCII decimal digit.
pub open spec fn all_digits(d: Seq<u8>) -> bool {
    forall|i: int| 0 <= i < d.len() ==> 0x30u8 <= #[trigger] d[i] <= 0x39u8
}

/// The number that an unsigned digit string denotes, where it has digits only
/// and fits in an `i16`.
pub open spec fn unsigned_i16(d: Seq<u8>) -> Option<i16> {
    if d.len() > 0 && all_digits(d) && decimal_value(d) <= i16::MAX {
        Some(decimal_value(d) as i16)
    } else {
        None
    }
}

/// The `i16` that `b` denotes as an optionally signed (`+` or `-`) decimal
/// number; `None` where `b` has no digits, holds another byte, or the number
/// does not fit.
pub open spec fn parse_i16_spec(b: Seq<u8>) -> Option<i16> {
    if b.len() == 0 {
        None
    } else if b[0] == 0x2bu8 {
        unsigned_i16(b.drop_first())
    } else if b[0] == 0x2du8 {
        let d = b.drop_first();
        if d.len() > 0 && all_digits(d) && -decimal_value(d) >= i16::MIN {
            Some((-decimal_value(d)) as i16)
        } else {
            None
        }
    } else {
        unsigned_i16(b)
    }
}

/// The error type of `btoi`.
#[verifier::external_type_specification]
#[verifier::external_body]
pub struct ExParseIntegerError(btoi::ParseIntegerError);

/// Calls `btoi::btoi::<i16>`: it accepts an optional leading `+` or `-` and
/// then one or more ASCII digits, and fails where there is no digit, another
/// byte, or the number does not fit in an `i16`. The contract claims that it
/// succeeds exactly then, with the number the digits denote.
#[verifier::external_body]
fn btoi_i16(bytes: &[u8]) -> (r: Result<i16, btoi::ParseIntegerError>)
    ensures
        r is Ok <==> parse_i16_spec(bytes@) is Some,
        r matches Ok(v) ==> parse_i16_spec(bytes@) == Some(v),
{
    btoi::btoi::<i16>(bytes)
}

/// The `i16` written in `bytes`, as `index.theme` writes sizes and scales.
pub fn parse_i16(bytes: &[u8]) -> (r: Option<i16>)
    ensures
        r == parse_i16_spec(bytes@),
{
    btoi_i16(bytes).ok()
}

/// `memchr::memchr` returns the position of the first occurrence of `needle`
/// in `haystack`, or `None` where there is none.
pub assume_specification[ memchr::memchr ](needle: u8, haystack: &[u8]) -> (r: Option<usize>)
    ensures
        r matches Some(i) ==> {
            &&& i < haystack@.len()
            &&& haystack@[i as int] == needle
            &&& forall|j: int| 0 <= j < i ==> haystack@[j] != needle
        },
        r is None ==> forall|j: int| 0 <= j < haystack@.len() ==> haystack@[j] != needle,
;

/// The position of the first `needle` in `haystack`.
pub fn find_byte(needle: u8, haystack: &[u8]) -> (r: Option<usize>)
    ensures
        r matches Some(i) ==> first_index(haystack@, needle) == Some(i as int),
        r is None ==> first_index(haystack@, needle) is None,
{
    let r = memchr::memchr(needle, haystack);
    proof {
        lemma_first_index(haystack@, needle);
        if let Some(i) = r {
            lemma_first_index_unique(haystack@, needle, i as int);
        }
    }
    r
}

/// Whether `b` is ASCII whitespace.
pub fn is_ascii_whitespace(b: u8) -> (r: bool)
    ensures
        r == is_ascii_ws(b),
{
    b == 0x20u8 || b == 0x09u8 || b == 0x0au8 || b == 0x0cu8 || b == 0x0du8
}

/// `s` with leading and trailing ASCII whitespace removed, as `[u8]::trim_ascii` does.
pub fn trim_ascii(s: &[u8]) -> (r: &[u8])
    ensures
        r@ == trim_ascii_spec(s@),
{
    let len = s.len();
    let mut i: usize = 0;
    assert(s@.subrange(0, len as int) =~= s@);
    while i < len && is_ascii_whitespace(s[i])
        invariant
            len == s@.len(),
            i <= len,
            trim_start_spec(s@) == trim_start_spec(s@.subrange(i as int, len as int)),
        decreases len - i,
    {
        assert(s@.subrange(i as int, len as int).drop_first() =~= s@.subrange(
            i + 1,
            len as int,
        ));
        i = i + 1;
    }
    assert(trim_start_spec(s@) == s@.subrange(i as int, len as int));
    let mut j: usize = len;
    while j > i && is_ascii_whitespace(s[j - 1])
        invariant
            len == s@.len(),
            i <= j <= len,
            trim_ascii_spec(s@) == trim_end_spec(s@.subrange(i as int, j as int)),
        decreases j,
    {
        assert(s@.subrange(i as int, j as int).drop_last() =~= s@.subrange(
            i as int,
            j - 1,
        ));
        j = j - 1;
    }
    let r = &s[i..j];
    r
}

/// Whether `a` and `b` hold the same bytes.
pub fn bytes_eq(a: &[u8], b: &[u8]) -> (r: bool)
    ensures
        r == (a@ == b@),
{
    if a.len() != b.len() {
        return false;
    }
    let mut i: usize = 0;
    while i < a.len()
        invariant
            a@.len() == b@.len(),
            i <= a@.len(),
            forall|j: int| 0 <= j < i ==> a@[j] == b@[j],
        decreases a@.len() - i,
    {
        if a[i] != b[i] {
            return false;
        }
        i = i + 1;
    }
    assert(a@ =~= b@);
    true
}

} // verus!
