//! Splitting text into terms: maximal runs of alphanumeric characters,
//! lower-cased in ASCII, as UTF-8 bytes.
use crate::io::binary::copy_bytes;
use crate::text::push_char;
use vstd::prelude::*;
use vstd::string::*;
use vstd::utf8::{decode_utf8, encode_utf8, encode_utf8_decode_utf8};

verus! {

/// Whether std's `char::is_alphanumeric` holds of `c` (Unicode's
/// Alphabetic or Numeric property).
pub uninterp spec fn char_is_alphanumeric(c: char) -> bool;

/// An ASCII letter or digit.
pub open spec fn ascii_alphanumeric(c: char) -> bool {
    ('a' <= c && c <= 'z') || ('A' <= c && c <= 'Z') || ('0' <= c && c <= '9')
}

/// A character that belongs to a term: for ASCII, a letter or digit;
/// beyond ASCII, one with Unicode's Alphabetic or Numeric property.
pub open spec fn is_word_char(c: char) -> bool {
    if (c as u32) < 128 {
        ascii_alphanumeric(c)
    } else {
        char_is_alphanumeric(c)
    }
}

/// Whether `c` is alphabetic or numeric (std's `char::is_alphanumeric`).
///
/// Trusted: the result is the property of `c` named above; for an ASCII
/// character, as std documents, it holds exactly of the letters and
/// digits. Nothing more is stated of the Unicode tables it consults.
#[verifier::external_body]
fn is_alphanumeric(c: char) -> (b: bool)
    ensures
        b == char_is_alphanumeric(c),
        (c as u32) < 128 ==> (b <==> ascii_alphanumeric(c)),
{
    c.is_alphanumeric()
}

/// The characters of a string (std's `str::chars`, collected).
///
/// Trusted: the result holds the string's characters in order.
#[verifier::external_body]
fn chars_of(s: &str) -> (v: Vec<char>)
    ensures
        v@ == s@,
{
    s.chars().collect()
}

/// A character lower-cased in ASCII: 'A'..='Z' become 'a'..='z', every
/// other character stays.
pub open spec fn ascii_lower(c: char) -> char {
    if 'A' <= c && c <= 'Z' {
        ((c as u32) + 32) as char
    } else {
        c
    }
}

/// The characters lower-cased in ASCII.
pub open spec fn ascii_lower_seq(s: Seq<char>) -> Seq<char> {
    s.map_values(|c: char| ascii_lower(c))
}

/// The maximal runs of alphanumeric characters, in order.
pub open spec fn runs(cs: Seq<char>) -> Seq<Seq<char>>
    decreases cs.len(),
{
    if cs.len() == 0 {
        Seq::empty()
    } else {
        let t = runs(cs.drop_last());
        if !is_word_char(cs.last()) {
            t
        } else if cs.len() > 1 && is_word_char(cs[cs.len() - 2]) {
            t.update(t.len() - 1, t.last().push(cs.last()))
        } else {
            t.push(seq![cs.last()])
        }
    }
}

/// The terms of a text: its runs, lower-cased, as UTF-8 bytes.
pub open spec fn terms_of(text: Seq<char>) -> Seq<Seq<u8>> {
    runs(text).map_values(|r: Seq<char>| encode_utf8(ascii_lower_seq(r)))
}

fn lower_char(c: char) -> (l: char)
    ensures
        l == ascii_lower(c),
        !('A' <= l && l <= 'Z'),
        ('A' <= c && c <= 'Z') ==> l as u32 == c as u32 + 32,
        !('A' <= c && c <= 'Z') ==> l == c,
{
    if 'A' <= c && c <= 'Z' {
        let u = (c as u32) + 32;
        let b = u as u8;
        proof {
            assert(b == u);
        }
        b as char
    } else {
        c
    }
}

/// A string lower-cased in ASCII (std's `str::to_ascii_lowercase`).
pub fn normalize(term: &str) -> (s: String)
    ensures
        s@ == ascii_lower_seq(term@),
        s@.len() == term@.len(),
        forall|i: int| 0 <= i < s@.len() ==> !('A' <= #[trigger] s@[i] && s@[i] <= 'Z'),
        forall|i: int| 0 <= i < s@.len() && 'A' <= #[trigger] term@[i] && term@[i] <= 'Z' ==> s@[i] as u32
            == term@[i] as u32 + 32,
        forall|i: int| 0 <= i < s@.len() && !('A' <= #[trigger] term@[i] && term@[i] <= 'Z') ==> s@[i]
            == term@[i],
{
    proof {
        lemma_ascii_lowercase(term@);
    }
    let cs = chars_of(term);
    let mut s = String::new();
    let mut i: usize = 0;
    while i < cs.len()
        invariant
            cs@ == term@,
            i <= cs@.len(),
            s@ == ascii_lower_seq(cs@.take(i as int)),
        decreases cs@.len() - i,
    {
        push_char(&mut s, lower_char(cs[i]));
        i = i + 1;
        proof {
            assert(s@ =~= ascii_lower_seq(cs@.take(i as int)));
        }
    }
    proof {
        assert(cs@.take(i as int) =~= cs@);
    }
    s
}

/// The UTF-8 bytes of the characters, lower-cased in ASCII.
fn run_bytes(run: &Vec<char>) -> (b: Vec<u8>)
    ensures
        b@ == encode_utf8(ascii_lower_seq(run@)),
{
    let mut s = String::new();
    let mut i: usize = 0;
    while i < run.len()
        invariant
            i <= run@.len(),
            s@ == ascii_lower_seq(run@.take(i as int)),
        decreases run@.len() - i,
    {
        push_char(&mut s, lower_char(run[i]));
        i = i + 1;
        proof {
            assert(s@ =~= ascii_lower_seq(run@.take(i as int)));
        }
    }
    proof {
        assert(run@.take(i as int) =~= run@);
    }
    copy_bytes(s.as_str().as_bytes())
}

/// The terms as plain byte sequences.
pub open spec fn terms_view(v: Seq<Vec<u8>>) -> Seq<Seq<u8>> {
    v.map_values(|t: Vec<u8>| t@)
}

/// The runs turned into terms.
pub open spec fn run_terms(rs: Seq<Seq<char>>) -> Seq<Seq<u8>> {
    rs.map_values(|r: Seq<char>| encode_utf8(ascii_lower_seq(r)))
}

/// The terms of `text`, in order, repeats included.
pub fn tokenize(text: &str) -> (terms: Vec<Vec<u8>>)
    ensures
        terms_view(terms@) == terms_of(text@),
{
    let cs = chars_of(text);
    let mut done: Vec<Vec<u8>> = Vec::new();
    let ghost mut done_runs: Seq<Seq<char>> = Seq::empty();
    let mut cur: Vec<char> = Vec::new();
    let mut i: usize = 0;
    proof {
        assert(cs@.take(0) =~= Seq::<char>::empty());
        assert(terms_view(done@) =~= run_terms(done_runs));
    }
    while i < cs.len()
        invariant
            cs@ == text@,
            i <= cs@.len(),
            terms_view(done@) == run_terms(done_runs),
            cur@.len() > 0 <==> (i > 0 && is_word_char(cs@[i - 1])),
            runs(cs@.take(i as int)) == if cur@.len() > 0 {
                done_runs.push(cur@)
            } else {
                done_runs
            },
        decreases cs@.len() - i,
    {
        let c = cs[i];
        let ghost pre = cs@.take(i as int);
        let ghost next = cs@.take(i + 1);
        proof {
            assert(next.drop_last() =~= pre);
            assert(next.last() == c);
            if i > 0 {
                assert(next[next.len() - 2] == cs@[i - 1]);
            }
        }
        if is_alphanumeric(c) {
            let ghost before = cur@;
            cur.push(c);
            proof {
                if before.len() > 0 {
                    let t = done_runs.push(before);
                    assert(t.update(t.len() - 1, t.last().push(c)) =~= done_runs.push(cur@));
                } else {
                    assert(cur@ =~= seq![c]);
                }
            }
        } else if cur.len() > 0 {
            let b = run_bytes(&cur);
            let ghost r = cur@;
            let ghost od = done@;
            let ghost orr = done_runs;
            done.push(b);
            proof {
                assert(terms_view(od).len() == od.len());
                assert(run_terms(orr).len() == orr.len());
                done_runs = done_runs.push(r);
                assert(run_terms(done_runs).len() == done_runs.len());
                assert forall|j: int| 0 <= j < done@.len() implies #[trigger] terms_view(done@)[j]
                    == run_terms(done_runs)[j] by {
                    if j < od.len() {
                        assert(done@[j] == od[j]);
                        assert(terms_view(od)[j] == run_terms(orr)[j]);
                    }
                }
                assert(terms_view(done@) =~= run_terms(done_runs));
            }
            cur = Vec::new();
        }
        i = i + 1;
    }
    if cur.len() > 0 {
        let b = run_bytes(&cur);
        let ghost r = cur@;
        let ghost od = done@;
        let ghost orr = done_runs;
        done.push(b);
        proof {
            assert(terms_view(od).len() == od.len());
            assert(run_terms(orr).len() == orr.len());
            done_runs = done_runs.push(r);
            assert(run_terms(done_runs).len() == done_runs.len());
            assert forall|j: int| 0 <= j < done@.len() implies #[trigger] terms_view(done@)[j]
                == run_terms(done_runs)[j] by {
                if j < od.len() {
                    assert(done@[j] == od[j]);
                    assert(terms_view(od)[j] == run_terms(orr)[j]);
                }
            }
            assert(terms_view(done@) =~= run_terms(done_runs));
        }
    }
    proof {
        assert(cs@.take(i as int) =~= cs@);
    }
    done
}


/// Lower-casing in ASCII, as `str::to_ascii_lowercase` does: the length
/// is kept, no ASCII upper-case letter is left, each upper-case letter
/// becomes its lower-case letter (32 code points on), and every other
/// character stays.
pub proof fn lemma_ascii_lowercase(s: Seq<char>)
    ensures
        ascii_lower_seq(s).len() == s.len(),
        forall|i: int| 0 <= i < s.len() ==> !('A' <= #[trigger] ascii_lower_seq(s)[i] && ascii_lower_seq(s)[i] <= 'Z'),
        forall|i: int| 0 <= i < s.len() && 'A' <= #[trigger] s[i] && s[i] <= 'Z' ==> ascii_lower_seq(s)[i] as u32
            == s[i] as u32 + 32,
        forall|i: int| 0 <= i < s.len() && !('A' <= #[trigger] s[i] && s[i] <= 'Z') ==> ascii_lower_seq(s)[i] == s[i],
{
    assert forall|i: int| 0 <= i < s.len() implies !('A' <= #[trigger] ascii_lower_seq(s)[i] && ascii_lower_seq(s)[i] <= 'Z') by {
        let c = s[i];
        if 'A' <= c && c <= 'Z' {
            assert((c as u32 + 32) as char as u32 == c as u32 + 32);
        }
    }
    assert forall|i: int| 0 <= i < s.len() && 'A' <= #[trigger] s[i] && s[i] <= 'Z' implies ascii_lower_seq(s)[i] as u32
        == s[i] as u32 + 32 by {
        let c = s[i];
        assert((c as u32 + 32) as char as u32 == c as u32 + 32);
    }
}

/// Every term of a text, read back as characters, holds no ASCII
/// upper-case letter.
pub proof fn lemma_terms_lowercase(text: Seq<char>, k: int)
    requires
        0 <= k < terms_of(text).len(),
    ensures
        forall|i: int| 0 <= i < decode_utf8(terms_of(text)[k]).len() ==> !('A' <= #[trigger] decode_utf8(terms_of(text)[k])[i]
            && decode_utf8(terms_of(text)[k])[i] <= 'Z'),
{
    let r = runs(text)[k];
    assert(terms_of(text)[k] == encode_utf8(ascii_lower_seq(r)));
    encode_utf8_decode_utf8(ascii_lower_seq(r));
    lemma_ascii_lowercase(r);
}

} // verus!
