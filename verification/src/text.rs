//! Lexical rules on event text: whitespace, trimming, tokens and sentence
//! ends.
//!
//! Every rule is stated on `Seq<char>`, the view of a string, and computed by
//! an executable function whose contract names that statement.

use vstd::prelude::*;
use vstd::string::*;

verus! {

/// Whether `c` carries the Unicode `White_Space` property.
pub open spec fn is_whitespace(c: char) -> bool {
    let n = c as u32;
    ||| 0x09 <= n <= 0x0D
    ||| n == 0x20
    ||| n == 0x85
    ||| n == 0xA0
    ||| n == 0x1680
    ||| 0x2000 <= n <= 0x200A
    ||| n == 0x2028
    ||| n == 0x2029
    ||| n == 0x202F
    ||| n == 0x205F
    ||| n == 0x3000
}

/// `s` without its leading whitespace.
pub open spec fn trim_start(s: Seq<char>) -> Seq<char>
    decreases s.len(),
{
    if s.len() > 0 && is_whitespace(s.first()) {
        trim_start(s.drop_first())
    } else {
        s
    }
}

/// `s` without its trailing whitespace.
pub open spec fn trim_end(s: Seq<char>) -> Seq<char>
    decreases s.len(),
{
    if s.len() > 0 && is_whitespace(s.last()) {
        trim_end(s.drop_last())
    } else {
        s
    }
}

/// `s` without its leading and trailing whitespace.
pub open spec fn trim(s: Seq<char>) -> Seq<char> {
    trim_end(trim_start(s))
}

/// Whether a token begins at position `i` of `s`: a character that is not
/// whitespace, at the start of `s` or right after whitespace.
pub open spec fn token_starts_at(s: Seq<char>, i: int) -> bool {
    &&& 0 <= i < s.len()
    &&& !is_whitespace(s[i])
    &&& (i == 0 || is_whitespace(s[i - 1]))
}

/// The number of tokens in `s`, a token being a maximal run of characters
/// that are not whitespace. The empty text has none.
pub open spec fn word_count(s: Seq<char>) -> nat
    decreases s.len(),
{
    if s.len() == 0 {
        0
    } else if token_starts_at(s, s.len() - 1) {
        word_count(s.drop_last()) + 1
    } else {
        word_count(s.drop_last())
    }
}

/// Whether `c` is one of the three sentence terminators.
pub open spec fn is_terminator(c: char) -> bool {
    c == '.' || c == '!' || c == '?'
}

/// Whether `s` ends a sentence: its last character is a terminator and is
/// not its only character.
pub open spec fn ends_sentence(s: Seq<char>) -> bool {
    s.len() >= 2 && is_terminator(s.last())
}

/// Whether `s` is not empty and begins with a character that is not
/// whitespace.
pub open spec fn starts_mid_token(s: Seq<char>) -> bool {
    s.len() > 0 && !is_whitespace(s.first())
}

/// Skipping `a` leading whitespace characters, up to the first character
/// that is none, is `trim_start`.
pub proof fn lemma_trim_start_is_skip(s: Seq<char>, a: int)
    requires
        0 <= a <= s.len(),
        forall|k: int| 0 <= k < a ==> is_whitespace(#[trigger] s[k]),
        a == s.len() || !is_whitespace(s[a]),
    ensures
        trim_start(s) == s.skip(a),
    decreases a,
{
    if a == 0 {
        assert(s.skip(0) =~= s);
    } else {
        assert(is_whitespace(s[0]));
        let rest = s.drop_first();
        assert forall|k: int| 0 <= k < a - 1 implies is_whitespace(#[trigger] rest[k]) by {
            assert(rest[k] == s[k + 1]);
        }
        lemma_trim_start_is_skip(rest, a - 1);
        assert(rest.skip(a - 1) =~= s.skip(a));
    }
}

/// Keeping all but the trailing whitespace characters, down to the last
/// character that is none, is `trim_end`.
pub proof fn lemma_trim_end_is_take(s: Seq<char>, b: int)
    requires
        0 <= b <= s.len(),
        forall|k: int| b <= k < s.len() ==> is_whitespace(#[trigger] s[k]),
        b == 0 || !is_whitespace(s[b - 1]),
    ensures
        trim_end(s) == s.take(b),
    decreases s.len() - b,
{
    if b == s.len() {
        assert(s.take(b) =~= s);
    } else {
        assert(is_whitespace(s[s.len() - 1]));
        let rest = s.drop_last();
        assert forall|k: int| b <= k < rest.len() implies is_whitespace(#[trigger] rest[k]) by {
            assert(rest[k] == s[k]);
        }
        lemma_trim_end_is_take(rest, b);
        assert(rest.take(b) =~= s.take(b));
    }
}

/// `String::push` of std: `c` is appended to `s`, and nothing else of `s`
/// changes.
#[verifier::external_body]
pub(crate) fn push_char(s: &mut String, c: char)
    ensures
        final(s)@ == old(s)@.push(c),
{
    s.push(c)
}

/// Whether `a` and `b` hold the same characters.
pub fn same_text(a: &str, b: &str) -> (r: bool)
    ensures
        r == (a@ == b@),
{
    let x = String::from_str(a);
    let y = String::from_str(b);
    x == y
}

/// Whether `c` is whitespace.
pub fn is_space(c: char) -> (r: bool)
    ensures
        r == is_whitespace(c),
{
    let n: u32 = c as u32;
    (0x09 <= n && n <= 0x0D) || n == 0x20 || n == 0x85 || n == 0xA0 || n == 0x1680 || (0x2000 <= n
        && n <= 0x200A) || n == 0x2028 || n == 0x2029 || n == 0x202F || n == 0x205F || n == 0x3000
}

/// Whether `s` ends a sentence.
pub fn is_sentence(s: &str) -> (r: bool)
    ensures
        r == ends_sentence(s@),
{
    let len = s.unicode_len();
    if len < 2 {
        return false;
    }
    let c = s.get_char(len - 1);
    c == '.' || c == '!' || c == '?'
}

/// Whether `s` continues a token: it is not empty and does not begin with
/// whitespace.
pub fn begins_mid_token(s: &str) -> (r: bool)
    ensures
        r == starts_mid_token(s@),
{
    if s.is_empty() {
        return false;
    }
    let c = s.get_char(0);
    !is_space(c)
}

/// The number of whitespace-separated tokens in `s`.
pub fn count_words(s: &str) -> (n: usize)
    ensures
        n == word_count(s@),
{
    broadcast use vstd::string::group_string_axioms;

    let len = s.unicode_len();
    let mut n: usize = 0;
    let mut in_word = false;
    for c in it: s.chars()
        invariant
            it.seq() == s@,
            len == s@.len(),
            n <= it.index(),
            n == word_count(s@.take(it.index())),
            in_word == (it.index() > 0 && !is_whitespace(s@[it.index() - 1])),
    {
        assert(s@.take(it.index() + 1).drop_last() == s@.take(it.index()));
        let ws = is_space(c);
        if !ws && !in_word {
            n = n + 1;
        }
        in_word = !ws;
    }
    assert(s@.take(s@.len() as int) == s@);
    n
}

/// `s` without its leading and trailing whitespace.
pub fn trimmed(s: &str) -> (r: &str)
    ensures
        r@ == trim(s@),
{
    broadcast use vstd::string::group_string_axioms;

    let len = s.unicode_len();
    // `first` is the position of the first character that is not whitespace,
    // `end` is one past the last such character; `first == len` while none
    // has been met.
    let mut first: usize = len;
    let mut end: usize = 0;
    let mut i: usize = 0;
    for c in it: s.chars()
        invariant
            it.seq() == s@,
            len == s@.len(),
            i == it.index(),
            first == len ==> end == 0 && forall|k: int|
                0 <= k < i ==> is_whitespace(#[trigger] s@[k]),
            first < len ==> {
                &&& first < end <= i
                &&& forall|k: int| 0 <= k < first ==> is_whitespace(#[trigger] s@[k])
                &&& !is_whitespace(s@[first as int])
                &&& !is_whitespace(s@[end - 1])
                &&& forall|k: int| end <= k < i ==> is_whitespace(#[trigger] s@[k])
            },
            first <= len,
    {
        if !is_space(c) {
            if first == len {
                first = i;
            }
            end = i + 1;
        }
        i = i + 1;
    }
    if first == len {
        proof {
            lemma_trim_start_is_skip(s@, len as int);
            assert(s@.skip(len as int) =~= s@.subrange(0, 0));
        }
        s.substring_char(0, 0)
    } else {
        proof {
            lemma_trim_start_is_skip(s@, first as int);
            let rest = s@.skip(first as int);
            assert forall|k: int| end - first <= k < rest.len() implies is_whitespace(
                #[trigger] rest[k],
            ) by {
                assert(rest[k] == s@[k + first]);
            }
            assert(rest[end - first - 1] == s@[end - 1]);
            lemma_trim_end_is_take(rest, end - first);
            assert(rest.take(end - first) =~= s@.subrange(first as int, end as int));
        }
        s.substring_char(first, end)
    }
}

} // verus!
