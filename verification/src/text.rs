//! What the crate takes from the standard library's text functions.

use vstd::prelude::*;
use vstd::string::StrSliceExecFns;
use vstd::string::StringExecFns;
use vstd::utf8::decode_utf8;
use vstd::utf8::valid_utf8;

verus! {

/// `text` in lower case.
pub uninterp spec fn lowercase_of(text: Seq<char>) -> Seq<char>;

/// The contents of a list of strings.
pub open spec fn texts(v: Seq<String>) -> Seq<Seq<char>> {
    Seq::new(v.len(), |i: int| v[i]@)
}

/// The contents of a list of string slices.
pub open spec fn slices(v: Seq<&str>) -> Seq<Seq<char>> {
    Seq::new(v.len(), |i: int| v[i]@)
}

/// What is said of `bytes` that are not valid UTF-8: which of them are to
/// blame.
pub uninterp spec fn utf8_complaint(bytes: Seq<u8>) -> Seq<char>;

/// `std::str::from_utf8`: the text that `bytes` encode, if they are valid
/// UTF-8. Otherwise the error as text, which is determined by the bytes alone.
#[verifier::external_body]
pub(crate) fn from_utf8(bytes: &[u8]) -> (r: Result<&str, String>)
    ensures
        r is Ok <==> valid_utf8(bytes@),
        r is Ok ==> r->Ok_0@ == decode_utf8(bytes@),
        r is Err ==> r->Err_0@ == utf8_complaint(bytes@),
{
    match std::str::from_utf8(bytes) {
        Ok(text) => Ok(text),
        Err(e) => Err(e.to_string()),
    }
}

/// Whether `c` is white space: has the Unicode property `White_Space`.
pub open spec fn is_white(c: char) -> bool {
    let n = c as u32;
    ||| 0x9 <= n <= 0xd
    ||| n == 0x20
    ||| n == 0x85
    ||| n == 0xa0
    ||| n == 0x1680
    ||| 0x2000 <= n <= 0x200a
    ||| n == 0x2028
    ||| n == 0x2029
    ||| n == 0x202f
    ||| n == 0x205f
    ||| n == 0x3000
}

/// The end of the stretch of characters other than white space that starts
/// at `i`.
pub open spec fn word_end(text: Seq<char>, i: int) -> int
    decreases text.len() - i,
{
    if 0 <= i < text.len() && !is_white(text[i]) {
        word_end(text, i + 1)
    } else {
        i
    }
}

/// The words of `text` from `i` on: the longest stretches of characters other
/// than white space, in order.
pub open spec fn words_from(text: Seq<char>, i: int) -> Seq<Seq<char>>
    decreases text.len() - i, 0int,
    via words_from_ends
{
    if i < 0 || i >= text.len() {
        Seq::empty()
    } else if is_white(text[i]) {
        words_from(text, i + 1)
    } else {
        seq![text.subrange(i, word_end(text, i))] + words_from(text, word_end(text, i))
    }
}

#[via_fn]
proof fn words_from_ends(text: Seq<char>, i: int) {
    if 0 <= i < text.len() && !is_white(text[i]) {
        lemma_word_end(text, i + 1);
    }
}

proof fn lemma_word_end(text: Seq<char>, i: int)
    requires
        0 <= i <= text.len(),
    ensures
        i <= word_end(text, i) <= text.len(),
    decreases text.len() - i,
{
    if i < text.len() && !is_white(text[i]) {
        lemma_word_end(text, i + 1);
    }
}

/// The words of `text`: the longest stretches of characters other than white
/// space, in order.
pub open spec fn words_of(text: Seq<char>) -> Seq<Seq<char>> {
    words_from(text, 0)
}

/// `str::split_whitespace`, collected: the words of `text`, where white space
/// is what has the Unicode property `White_Space`.
#[verifier::external_body]
pub(crate) fn split_whitespace(text: &str) -> (r: Vec<&str>)
    ensures
        slices(r@) == words_of(text@),
{
    text.split_whitespace().collect()
}

/// `str::to_lowercase`: `text` in lower case, which is determined by it
/// alone.
#[verifier::external_body]
pub(crate) fn to_lowercase(text: &str) -> (r: String)
    ensures
        r@ == lowercase_of(text@),
{
    text.to_lowercase()
}

/// Each of `words` in lower case.
pub open spec fn lowered(words: Seq<Seq<char>>) -> Seq<Seq<char>> {
    Seq::new(words.len(), |i: int| lowercase_of(words[i]))
}

/// The words of `text` in lower case.
pub fn lowercase_words(text: &str) -> (r: Vec<String>)
    ensures
        texts(r@) == lowered(words_of(text@)),
{
    let words: Vec<&str> = split_whitespace(text);
    lowercase_all(&words)
}

/// Each of `words` in lower case.
pub fn lowercase_all(words: &Vec<&str>) -> (r: Vec<String>)
    ensures
        texts(r@) == lowered(slices(words@)),
{
    let mut r: Vec<String> = Vec::new();
    let ghost target = lowered(slices(words@));
    let mut i: usize = 0;
    while i < words.len()
        invariant
            i <= words@.len(),
            target == lowered(slices(words@)),
            r@.len() == i,
            forall|j: int| 0 <= j < i ==> (#[trigger] r@[j])@ == target[j],
        decreases words@.len() - i,
    {
        assert(slices(words@)[i as int] == words@[i as int]@);
        r.push(to_lowercase(words[i]));
        i += 1;
    }
    assert(texts(r@) =~= target);
    r
}

/// Whether `w` is one of `words`.
pub fn is_among(w: &String, words: &Vec<String>) -> (r: bool)
    ensures
        r == texts(words@).contains(w@),
{
    let mut i: usize = 0;
    while i < words.len()
        invariant
            i <= words@.len(),
            forall|j: int| 0 <= j < i ==> #[trigger] texts(words@)[j] != w@,
        decreases words@.len() - i,
    {
        if words[i] == *w {
            assert(texts(words@)[i as int] == w@);
            return true;
        }
        i += 1;
    }
    false
}

/// The first `n` of `words`, each where it first occurs.
pub open spec fn distinct(words: Seq<Seq<char>>, n: int) -> Seq<Seq<char>>
    decreases n,
{
    if n <= 0 {
        Seq::empty()
    } else if distinct(words, n - 1).contains(words[n - 1]) {
        distinct(words, n - 1)
    } else {
        distinct(words, n - 1).push(words[n - 1])
    }
}

/// `words` without repetitions.
pub fn deduplicate(words: Vec<String>) -> (r: Vec<String>)
    ensures
        texts(r@) == distinct(texts(words@), words@.len() as int),
{
    let mut r: Vec<String> = Vec::new();
    let mut i: usize = 0;
    assert(texts(r@) =~= Seq::<Seq<char>>::empty());
    while i < words.len()
        invariant
            i <= words@.len(),
            texts(r@) == distinct(texts(words@), i as int),
        decreases words@.len() - i,
    {
        assert(texts(words@)[i as int] == words@[i as int]@);
        if !is_among(&words[i], &r) {
            let ghost before = texts(r@);
            r.push(words[i].clone());
            assert(texts(r@) =~= before.push(words@[i as int]@));
        }
        i += 1;
    }
    r
}

/// How many of the first `n` of `terms` are among `words`.
pub open spec fn overlap(terms: Seq<Seq<char>>, words: Seq<Seq<char>>, n: int) -> int
    decreases n,
{
    if n <= 0 {
        0
    } else if words.contains(terms[n - 1]) {
        overlap(terms, words, n - 1) + 1
    } else {
        overlap(terms, words, n - 1)
    }
}

/// How many of `terms` are among `words`.
pub fn count_overlap(terms: &Vec<String>, words: &Vec<String>) -> (r: usize)
    ensures
        r == overlap(texts(terms@), texts(words@), terms@.len() as int),
        r <= terms@.len(),
{
    let mut r: usize = 0;
    let mut i: usize = 0;
    while i < terms.len()
        invariant
            i <= terms@.len(),
            r <= i,
            r == overlap(texts(terms@), texts(words@), i as int),
        decreases terms@.len() - i,
    {
        assert(texts(terms@)[i as int] == terms@[i as int]@);
        if is_among(&terms[i], words) {
            r += 1;
        }
        i += 1;
    }
    r
}

/// The digits, up to base sixteen.
pub open spec fn digits() -> Seq<char> {
    seq![
        '0', '1', '2', '3', '4', '5', '6', '7', '8', '9', 'a', 'b', 'c', 'd', 'e', 'f',
    ]
}

/// Appends the digit `d`.
pub fn push_digit(out: &mut String, d: u8)
    requires
        d < 16,
    ensures
        final(out)@ == old(out)@.push(digits()[d as int]),
{
    let all: &str = "0123456789abcdef";
    proof {
        reveal_strlit("0123456789abcdef");
        assert(all@ =~= digits());
        assert(all.is_ascii());
    }
    let digit: &str = all.substring_ascii(d as usize, d as usize + 1);
    out.append(digit);
    assert(out@ =~= old(out)@.push(digits()[d as int]));
}

/// `n` in decimal.
pub open spec fn decimal(n: int) -> Seq<char>
    decreases n,
{
    if n < 10 {
        seq![digits()[n]]
    } else {
        decimal(n / 10).push(digits()[n % 10])
    }
}

/// Appends `n` in decimal.
pub fn push_decimal(out: &mut String, n: u64)
    ensures
        final(out)@ == old(out)@ + decimal(n as int),
    decreases n,
{
    let ghost start = out@;
    if n >= 10 {
        push_decimal(out, n / 10);
    }
    push_digit(out, (n % 10) as u8);
    proof {
        if n >= 10 {
            assert(out@ =~= start + decimal(n as int));
        } else {
            assert(out@ =~= start + seq![digits()[n as int]]);
        }
    }
}

} // verus!
