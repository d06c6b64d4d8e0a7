//! Building strings: numbers in decimal and hexadecimal, zero-padded, and
//! the joining of path components.
use vstd::prelude::*;
use vstd::string::*;
use vstd::utf8::{decode_utf8, valid_utf8};

verus! {

/// Appends a character to a string (std's `String::push`).
///
/// Trusted: the string afterwards holds its former characters followed by
/// `c`.
#[verifier::external_body]
pub(crate) fn push_char(s: &mut String, c: char)
    ensures
        final(s)@ == old(s)@.push(c),
{
    s.push(c);
}

/// Names the message of the error `String::from_utf8` gives for bytes
/// that are not UTF-8.
pub uninterp spec fn utf8_error_text(bytes: Seq<u8>) -> Seq<char>;

/// `String::from_utf8`, its error as text. Trusted: valid UTF-8 decodes as
/// it stands; anything else is refused (its documentation), with the
/// message named by `utf8_error_text`.
#[verifier::external_body]
pub(crate) fn string_from_utf8(bytes: Vec<u8>) -> (r: core::result::Result<String, String>)
    ensures
        match r {
            Ok(s) => valid_utf8(bytes@) && s@ == decode_utf8(bytes@),
            Err(m) => !valid_utf8(bytes@) && m@ == utf8_error_text(bytes@),
        },
{
    match String::from_utf8(bytes) {
        Ok(s) => Ok(s),
        Err(e) => Err(e.to_string()),
    }
}

/// Names the text that `String::from_utf8_lossy` makes of a byte string.
pub uninterp spec fn utf8_lossy(bytes: Seq<u8>) -> Seq<char>;

/// `String::from_utf8_lossy`, owned. Trusted: the result is the text named
/// by `utf8_lossy`; bytes that are valid UTF-8 decode as they stand (its
/// documentation: only invalid sequences are replaced, by U+FFFD).
#[verifier::external_body]
pub(crate) fn from_utf8_lossy(bytes: &[u8]) -> (s: String)
    ensures
        s@ == utf8_lossy(bytes@),
        valid_utf8(bytes@) ==> s@ == decode_utf8(bytes@),
{
    String::from_utf8_lossy(bytes).into_owned()
}

/// The character of a digit below sixteen, lower case.
pub open spec fn digit_char(d: nat) -> char {
    if d == 0 {
        '0'
    } else if d == 1 {
        '1'
    } else if d == 2 {
        '2'
    } else if d == 3 {
        '3'
    } else if d == 4 {
        '4'
    } else if d == 5 {
        '5'
    } else if d == 6 {
        '6'
    } else if d == 7 {
        '7'
    } else if d == 8 {
        '8'
    } else if d == 9 {
        '9'
    } else if d == 10 {
        'a'
    } else if d == 11 {
        'b'
    } else if d == 12 {
        'c'
    } else if d == 13 {
        'd'
    } else if d == 14 {
        'e'
    } else {
        'f'
    }
}

/// The decimal digits of `v`, with no leading zero ("0" for zero).
pub open spec fn dec_str(v: nat) -> Seq<char>
    decreases v,
{
    if v < 10 {
        seq![digit_char(v)]
    } else {
        dec_str(v / 10).push(digit_char(v % 10))
    }
}

/// The lower-case hexadecimal digits of `v`, with no leading zero.
pub open spec fn hex_str(v: nat) -> Seq<char>
    decreases v,
{
    if v < 16 {
        seq![digit_char(v)]
    } else {
        hex_str(v / 16).push(digit_char(v % 16))
    }
}

/// `s` with zeros in front until it is `width` long (as `{:0width$}`).
pub open spec fn zero_pad(s: Seq<char>, width: nat) -> Seq<char> {
    if s.len() >= width {
        s
    } else {
        Seq::new((width - s.len()) as nat, |i: int| '0') + s
    }
}

/// `v` in decimal, zero-padded to `width`.
pub open spec fn dec_padded(v: nat, width: nat) -> Seq<char> {
    zero_pad(dec_str(v), width)
}

/// `v` in lower-case hexadecimal, zero-padded to `width`.
pub open spec fn hex_padded(v: nat, width: nat) -> Seq<char> {
    zero_pad(hex_str(v), width)
}

/// The digits of `v` in base 10 or 16.
pub open spec fn digits_in(v: nat, base: nat) -> Seq<char> {
    if base == 16 {
        hex_str(v)
    } else {
        dec_str(v)
    }
}

fn digit(d: u64) -> (c: char)
    requires
        d < 16,
    ensures
        c == digit_char(d as nat),
{
    if d == 0 {
        '0'
    } else if d == 1 {
        '1'
    } else if d == 2 {
        '2'
    } else if d == 3 {
        '3'
    } else if d == 4 {
        '4'
    } else if d == 5 {
        '5'
    } else if d == 6 {
        '6'
    } else if d == 7 {
        '7'
    } else if d == 8 {
        '8'
    } else if d == 9 {
        '9'
    } else if d == 10 {
        'a'
    } else if d == 11 {
        'b'
    } else if d == 12 {
        'c'
    } else if d == 13 {
        'd'
    } else if d == 14 {
        'e'
    } else {
        'f'
    }
}

fn digits(v: u64, base: u64) -> (out: Vec<char>)
    requires
        base == 10 || base == 16,
    ensures
        out@ == digits_in(v as nat, base as nat),
{
    let mut out: Vec<char> = Vec::new();
    let mut cur = v;
    while cur >= base
        invariant
            base == 10 || base == 16,
            digits_in(v as nat, base as nat) == digits_in(cur as nat, base as nat) + out@,
        decreases cur,
    {
        let ghost before = out@;
        let d = digit(cur % base);
        out.insert(0, d);
        let ghost next = (cur / base) as nat;
        proof {
            assert(digits_in(cur as nat, base as nat) == digits_in(next, base as nat).push(d));
            assert(digits_in(next, base as nat).push(d) + before =~= digits_in(next, base as nat)
                + out@);
        }
        cur = cur / base;
    }
    let d = digit(cur);
    out.insert(0, d);
    proof {
        assert(digits_in(cur as nat, base as nat) =~= seq![d]);
    }
    out
}

/// Appends the characters of `cs` to `s`.
fn push_all(s: &mut String, cs: &Vec<char>)
    ensures
        final(s)@ == old(s)@ + cs@,
{
    let mut i: usize = 0;
    while i < cs.len()
        invariant
            i <= cs@.len(),
            s@ == old(s)@ + cs@.take(i as int),
        decreases cs@.len() - i,
    {
        push_char(s, cs[i]);
        proof {
            assert(old(s)@ + cs@.take(i + 1) =~= (old(s)@ + cs@.take(i as int)).push(cs@[i as int]));
        }
        i = i + 1;
    }
    proof {
        assert(cs@.take(i as int) =~= cs@);
    }
}

fn padded(v: u64, width: usize, base: u64) -> (s: String)
    requires
        base == 10 || base == 16,
    ensures
        s@ == zero_pad(digits_in(v as nat, base as nat), width as nat),
{
    let ds = digits(v, base);
    let mut s = String::new();
    let mut k: usize = ds.len();
    while k < width
        invariant
            ds.len() <= k <= width || (k == ds.len() && k >= width),
            s@ == Seq::new((k - ds@.len()) as nat, |i: int| '0'),
        decreases width - k,
    {
        push_char(&mut s, '0');
        k = k + 1;
        proof {
            assert(s@ =~= Seq::new((k - ds@.len()) as nat, |i: int| '0'));
        }
    }
    push_all(&mut s, &ds);
    proof {
        if ds@.len() >= width {
            assert(s@ =~= ds@);
        }
    }
    s
}

/// `v` in decimal, zero-padded to `width` digits.
pub fn decimal_padded(v: u64, width: usize) -> (s: String)
    ensures
        s@ == dec_padded(v as nat, width as nat),
{
    padded(v, width, 10)
}

/// `v` in lower-case hexadecimal, zero-padded to `width` digits.
pub fn hex_padded_string(v: u64, width: usize) -> (s: String)
    ensures
        s@ == hex_padded(v as nat, width as nat),
{
    padded(v, width, 16)
}

/// `a` followed by `b`.
pub fn concat_str(a: &str, b: &str) -> (s: String)
    ensures
        s@ == a@ + b@,
{
    let mut s = String::from_str(a);
    s.append(b);
    s
}

/// Whether two strings hold the same characters.
pub fn str_equal(a: &str, b: &str) -> (r: bool)
    ensures
        r == (a@ == b@),
{
    let n = a.unicode_len();
    if n != b.unicode_len() {
        return false;
    }
    let mut i: usize = 0;
    while i < n
        invariant
            n == a@.len(),
            n == b@.len(),
            i <= n,
            forall|j: int| 0 <= j < i ==> a@[j] == b@[j],
        decreases n - i,
    {
        if a.get_char(i) != b.get_char(i) {
            return false;
        }
        i = i + 1;
    }
    proof {
        assert(a@ =~= b@);
    }
    true
}

} // verus!
