//! Small pieces of text that callers type: pairs, slugs, hexadecimal digits and lists
//! of words.

use vstd::prelude::*;

use crate::paths;
use crate::text;

verus! {

// -------------------------------------------------------------------------- refusals

/// What the first element that is refused is refused with.
pub open spec fn first_refusal<T>(
    s: Seq<T>,
    refusal: spec_fn(T) -> Option<Seq<char>>,
) -> Option<Seq<char>>
    decreases s.len(),
{
    if s.len() == 0 {
        None
    } else {
        match first_refusal(s.drop_last(), refusal) {
            Some(m) => Some(m),
            None => refusal(s.last()),
        }
    }
}

pub proof fn lemma_first_refusal_step<T>(
    s: Seq<T>,
    refusal: spec_fn(T) -> Option<Seq<char>>,
    i: int,
)
    requires
        0 <= i < s.len(),
    ensures
        first_refusal(s.take(i + 1), refusal) == match first_refusal(s.take(i), refusal) {
            Some(m) => Some(m),
            None => refusal(s[i]),
        },
{
    assert(s.take(i + 1).drop_last() =~= s.take(i));
}

/// Once an element is refused, what follows it makes no difference.
pub proof fn lemma_first_refusal_stays<T>(
    s: Seq<T>,
    refusal: spec_fn(T) -> Option<Seq<char>>,
    i: int,
)
    requires
        0 <= i <= s.len(),
        first_refusal(s.take(i), refusal) is Some,
    ensures
        first_refusal(s, refusal) == first_refusal(s.take(i), refusal),
    decreases s.len() - i,
{
    if i < s.len() {
        lemma_first_refusal_step(s, refusal, i);
        lemma_first_refusal_stays(s, refusal, i + 1);
    } else {
        assert(s.take(i) =~= s);
    }
}

/// No element is refused exactly where there is no first refusal.
pub proof fn lemma_first_refusal<T>(s: Seq<T>, refusal: spec_fn(T) -> Option<Seq<char>>)
    ensures
        first_refusal(s, refusal) is None <==> forall|i: int|
            0 <= i < s.len() ==> refusal(#[trigger] s[i]) is None,
    decreases s.len(),
{
    if s.len() > 0 {
        let rest = s.drop_last();
        lemma_first_refusal(rest, refusal);
        if first_refusal(s, refusal) is None {
            assert forall|i: int| 0 <= i < s.len() implies refusal(#[trigger] s[i]) is None by {
                if i < rest.len() {
                    assert(rest[i] == s[i]);
                }
            }
        }
        if forall|i: int| 0 <= i < s.len() ==> refusal(#[trigger] s[i]) is None {
            assert forall|i: int| 0 <= i < rest.len() implies refusal(
                #[trigger] rest[i],
            ) is None by {
                assert(rest[i] == s[i]);
            }
            assert(s.last() == s[s.len() - 1]);
        }
    }
}

// ----------------------------------------------------------------------------- pairs

/// What stands before the first `c` and what stands behind it.
pub open spec fn parted(s: Seq<char>, c: char) -> Option<(Seq<char>, Seq<char>)> {
    let i = text::find_char(s, c);
    if i < s.len() {
        Some((s.take(i), s.skip(i + 1)))
    } else {
        None
    }
}

/// What stands before the last `c` and what stands behind it.
pub open spec fn parted_last(s: Seq<char>, c: char) -> Option<(Seq<char>, Seq<char>)> {
    let i = paths::last_index(s, c);
    if i >= 0 {
        Some((s.take(i), s.skip(i + 1)))
    } else {
        None
    }
}

/// The contents of an optional pair.
pub open spec fn pair_of(o: Option<(&str, &str)>) -> Option<(Seq<char>, Seq<char>)> {
    match o {
        Some((a, b)) => Some((a@, b@)),
        None => None,
    }
}

/// A text split at its first `c`.
pub fn split_once<'a>(s: &'a str, c: char) -> (r: Option<(&'a str, &'a str)>)
    ensures
        pair_of(r) == parted(s@, c),
{
    let cs = text::chars_of(s);
    proof {
        assert(cs@.skip(0) =~= cs@);
    }
    let i: usize = text::find_from(cs.as_slice(), 0, c);
    if i < cs.len() {
        let a = s.substring_char(0, i);
        let b = s.substring_char(i + 1, cs.len());
        proof {
            assert(a@ =~= s@.take(i as int));
            assert(b@ =~= s@.skip(i as int + 1));
        }
        Some((a, b))
    } else {
        None
    }
}

/// A text split at its last `c`.
pub fn rsplit_once<'a>(s: &'a str, c: char) -> (r: Option<(&'a str, &'a str)>)
    ensures
        pair_of(r) == parted_last(s@, c),
{
    let cs = text::chars_of(s);
    proof {
        assert(cs@.take(cs@.len() as int) =~= cs@);
    }
    match paths::find_last(cs.as_slice(), cs.len(), c) {
        Some(i) => {
            let a = s.substring_char(0, i);
            let b = s.substring_char(i + 1, cs.len());
            proof {
                assert(a@ =~= s@.take(i as int));
                assert(b@ =~= s@.skip(i as int + 1));
            }
            Some((a, b))
        },
        None => None,
    }
}

/// A text split at the first place of a character that stands before it nowhere.
pub proof fn lemma_parted_at(a: Seq<char>, c: char, b: Seq<char>)
    requires
        !a.contains(c),
    ensures
        parted(a + seq![c] + b, c) == Some((a, b)),
{
    let s = a + seq![c] + b;
    text::lemma_find_char(s, c);
    let i = text::find_char(s, c);
    let n = a.len() as int;
    assert(s[n] == c);
    if i < n {
        assert(s[i] == a[i]);
        assert(a.contains(a[i]));
    }
    assert(i == n);
    assert(s.take(n) =~= a);
    assert(s.skip(n + 1) =~= b);
}

/// A given text, trimmed; one that is blank counts as not given.
pub open spec fn given(o: Option<Seq<char>>) -> Option<Seq<char>> {
    match o {
        Some(s) => if text::trimmed(s).len() == 0 {
            None
        } else {
            Some(text::trimmed(s))
        },
        None => None,
    }
}

pub fn given_text<'a>(o: Option<&'a str>) -> (r: Option<&'a str>)
    ensures
        text::str_of(r) == given(text::str_of(o)),
{
    match o {
        Some(s) => {
            let t = text::trim(s);
            if t.is_empty() {
                None
            } else {
                Some(t)
            }
        },
        None => None,
    }
}

// ----------------------------------------------------------------------------- slugs

pub open spec fn is_slug_letter(c: char) -> bool {
    ('a' <= c && c <= 'z') || ('0' <= c && c <= '9')
}

/// A lower-case letter or a digit, then letters, digits and hyphens; 32 at most.
pub open spec fn is_slug(s: Seq<char>) -> bool {
    &&& 0 < s.len() <= 32
    &&& is_slug_letter(s[0])
    &&& forall|i: int| 0 <= i < s.len() ==> is_slug_letter(#[trigger] s[i]) || s[i] == '-'
}

pub fn slug_letter(c: char) -> (r: bool)
    ensures
        r == is_slug_letter(c),
{
    ('a' <= c && c <= 'z') || ('0' <= c && c <= '9')
}

pub fn slug(s: &str) -> (r: bool)
    ensures
        r == is_slug(s@),
{
    let cs = text::chars_of(s);
    if cs.len() == 0 || cs.len() > 32 || !slug_letter(cs[0]) {
        return false;
    }
    let mut i: usize = 0;
    while i < cs.len()
        invariant
            i <= cs@.len(),
            cs@ == s@,
            forall|k: int| 0 <= k < i ==> is_slug_letter(#[trigger] s@[k]) || s@[k] == '-',
        decreases cs.len() - i,
    {
        if !slug_letter(cs[i]) && cs[i] != '-' {
            proof {
                assert(!is_slug_letter(s@[i as int]) && s@[i as int] != '-');
            }
            return false;
        }
        i = i + 1;
    }
    true
}

/// A text without white space at either end is trimmed already.
pub proof fn lemma_trimmed_already(s: Seq<char>)
    requires
        s.len() > 0 ==> !text::is_white_space(s[0]) && !text::is_white_space(s.last()),
    ensures
        text::trimmed(s) == s,
{
}

/// A slug is trimmed already.
pub proof fn lemma_slug_trimmed(s: Seq<char>)
    requires
        is_slug(s),
    ensures
        text::trimmed(s) == s,
        !s.contains('='),
        !s.contains(':'),
{
    assert(is_slug_letter(s[s.len() - 1]) || s[s.len() - 1] == '-');
    lemma_trimmed_already(s);
    if s.contains('=') {
        let i = choose|i: int| 0 <= i < s.len() && s[i] == '=';
        assert(is_slug_letter(s[i]) || s[i] == '-');
    }
    if s.contains(':') {
        let i = choose|i: int| 0 <= i < s.len() && s[i] == ':';
        assert(is_slug_letter(s[i]) || s[i] == '-');
    }
}

// ------------------------------------------------------------------------ lower case

/// A character with an ASCII capital made small.
pub open spec fn ascii_lower(c: char) -> char {
    if 'A' <= c && c <= 'Z' {
        (c as u32 + 32) as char
    } else {
        c
    }
}

/// A text with its ASCII capitals made small.
pub open spec fn ascii_lowered(s: Seq<char>) -> Seq<char> {
    s.map_values(|c: char| ascii_lower(c))
}

pub fn lower_char(c: char) -> (r: char)
    ensures
        r == ascii_lower(c),
{
    if 'A' <= c && c <= 'Z' {
        let code: u8 = c as u8;
        (code + 32) as char
    } else {
        c
    }
}

pub fn to_ascii_lower(s: &str) -> (r: String)
    ensures
        r@ == ascii_lowered(s@),
{
    let cs = text::chars_of(s);
    let mut out: Vec<char> = Vec::new();
    let mut i: usize = 0;
    while i < cs.len()
        invariant
            i <= cs@.len(),
            cs@ == s@,
            out@ == ascii_lowered(s@).take(i as int),
        decreases cs.len() - i,
    {
        proof {
            assert(ascii_lowered(s@).take(i as int + 1) =~= ascii_lowered(s@).take(
                i as int,
            ).push(ascii_lowered(s@)[i as int]));
        }
        out.push(lower_char(cs[i]));
        i = i + 1;
    }
    proof {
        assert(ascii_lowered(s@).take(s@.len() as int) =~= ascii_lowered(s@));
    }
    text::text_from(out.as_slice())
}

/// So many lower-case hexadecimal digits and nothing else.
pub open spec fn is_hex(s: Seq<char>, n: int) -> bool {
    &&& s.len() == n
    &&& forall|i: int| 0 <= i < s.len() ==> text::is_lower_hex(#[trigger] s[i])
}

/// Whether a lower-case text is so many hexadecimal digits and nothing else.
pub fn hex_of_length(s: &str, n: usize) -> (r: bool)
    ensures
        r == is_hex(s@, n as int),
{
    let cs = text::chars_of(s);
    if cs.len() != n {
        return false;
    }
    let mut i: usize = 0;
    while i < cs.len()
        invariant
            i <= cs@.len(),
            cs@ == s@,
            forall|k: int| 0 <= k < i ==> text::is_lower_hex(#[trigger] s@[k]),
        decreases cs.len() - i,
    {
        let c: char = cs[i];
        if !(('0' <= c && c <= '9') || ('a' <= c && c <= 'f')) {
            proof {
                assert(!text::is_lower_hex(s@[i as int]));
            }
            return false;
        }
        i = i + 1;
    }
    true
}

// ----------------------------------------------------------------------------- words

/// The contents of each of some fixed words.
pub open spec fn words_of(s: Seq<&'static str>) -> Seq<Seq<char>> {
    Seq::new(s.len(), |i: int| s[i]@)
}

/// Whether a text is one of some fixed words.
pub fn is_one_of(s: &str, words: &[&'static str]) -> (r: bool)
    ensures
        r == words_of(words@).contains(s@),
{
    let mut i: usize = 0;
    while i < words.len()
        invariant
            i <= words@.len(),
            forall|k: int| 0 <= k < i ==> #[trigger] words_of(words@)[k] != s@,
        decreases words.len() - i,
    {
        if text::same(words[i], s) {
            proof {
                assert(words_of(words@)[i as int] == s@);
            }
            return true;
        }
        i = i + 1;
    }
    false
}

/// Some fixed words, owned.
pub fn own_words(words: &[&'static str]) -> (r: Vec<String>)
    ensures
        text::texts(r@) == words_of(words@),
{
    let mut out: Vec<String> = Vec::new();
    let mut i: usize = 0;
    let ghost wanted = words_of(words@);
    while i < words.len()
        invariant
            i <= words@.len(),
            wanted == words_of(words@),
            text::texts(out@) == wanted.take(i as int),
        decreases words.len() - i,
    {
        let ghost before = text::texts(out@);
        let word = words[i].to_owned();
        out.push(word);
        proof {
            assert(text::texts(out@) =~= before.push(word@));
            assert(wanted.take(i as int + 1) =~= wanted.take(i as int).push(wanted[i as int]));
        }
        i = i + 1;
    }
    proof {
        assert(wanted.take(wanted.len() as int) =~= wanted);
    }
    out
}

} // verus!
