//! Repair of comma-separated lines that one producer writes with quotes
//! around a text that needs none.
//!
//! A line with exactly two commas has three fields, so its text holds no
//! comma and the quotes around it are surplus: the first and the last quote
//! of such a line are taken out. Every other line stays as it is.

use vstd::prelude::*;
use vstd::string::*;

verus! {

/// The number of commas in `s`.
pub open spec fn comma_count(s: Seq<char>) -> nat
    decreases s.len(),
{
    if s.len() == 0 {
        0
    } else if s.last() == ',' {
        comma_count(s.drop_last()) + 1
    } else {
        comma_count(s.drop_last())
    }
}

/// The position of the first quote in `s`, or the length of `s` where it
/// holds none.
pub open spec fn first_quote(s: Seq<char>) -> int
    decreases s.len(),
{
    if s.len() == 0 || s.first() == '"' {
        0
    } else {
        1 + first_quote(s.drop_first())
    }
}

/// The position behind the last quote in `s`, or zero where it holds none.
pub open spec fn last_quote_end(s: Seq<char>) -> int
    decreases s.len(),
{
    if s.len() == 0 {
        0
    } else if s.last() == '"' {
        s.len() as int
    } else {
        last_quote_end(s.drop_last())
    }
}

/// `line` without its first and its last quote, where these are two; a
/// line with fewer than two quotes stays as it is.
pub open spec fn without_bookending_quotes(line: Seq<char>) -> Seq<char> {
    let left = first_quote(line);
    let right = last_quote_end(line) - 1;
    if left < right {
        line.subrange(0, left) + line.subrange(left + 1, right) + line.subrange(
            right + 1,
            line.len() as int,
        )
    } else {
        line
    }
}

/// The line as the repair leaves it.
pub open spec fn repaired(line: Seq<char>) -> Seq<char> {
    if comma_count(line) == 2 {
        without_bookending_quotes(line)
    } else {
        line
    }
}

/// The first quote stands where no quote stands before.
pub proof fn lemma_first_quote_at(s: Seq<char>, a: int)
    requires
        0 <= a <= s.len(),
        forall|k: int| 0 <= k < a ==> #[trigger] s[k] != '"',
        a == s.len() || s[a] == '"',
    ensures
        first_quote(s) == a,
    decreases a,
{
    if a > 0 {
        let rest = s.drop_first();
        assert(s[0] != '"');
        assert forall|k: int| 0 <= k < a - 1 implies #[trigger] rest[k] != '"' by {
            assert(rest[k] == s[k + 1]);
        }
        lemma_first_quote_at(rest, a - 1);
    }
}

/// The last quote stands where no quote stands behind.
pub proof fn lemma_last_quote_end_at(s: Seq<char>, b: int)
    requires
        0 <= b <= s.len(),
        forall|k: int| b <= k < s.len() ==> #[trigger] s[k] != '"',
        b == 0 || s[b - 1] == '"',
    ensures
        last_quote_end(s) == b,
    decreases s.len() - b,
{
    if b < s.len() {
        let rest = s.drop_last();
        assert(s[s.len() - 1] != '"');
        assert forall|k: int| b <= k < rest.len() implies #[trigger] rest[k] != '"' by {
            assert(rest[k] == s[k]);
        }
        lemma_last_quote_end_at(rest, b);
    }
}

/// What a scan of a line finds: the number of its commas, the position of
/// its first quote (its length where there is none) and the position
/// behind its last quote (zero where there is none).
fn scan(line: &str) -> (r: (usize, usize, usize))
    ensures
        r.0 == comma_count(line@),
        r.1 == first_quote(line@),
        r.2 == last_quote_end(line@),
        r.1 <= line@.len(),
        r.2 <= line@.len(),
{
    broadcast use vstd::string::group_string_axioms;

    let len = line.unicode_len();
    let mut commas: usize = 0;
    let mut first: usize = len;
    let mut end: usize = 0;
    let mut i: usize = 0;
    for c in it: line.chars()
        invariant
            it.seq() == line@,
            len == line@.len(),
            i == it.index(),
            commas <= i,
            commas == comma_count(line@.take(i as int)),
            first <= len,
            end <= i,
            first == len ==> forall|k: int| 0 <= k < i ==> #[trigger] line@[k] != '"',
            first < len ==> first < i && line@[first as int] == '"' && forall|k: int|
                0 <= k < first ==> #[trigger] line@[k] != '"',
            end == 0 || line@[end - 1] == '"',
            forall|k: int| end <= k < i ==> #[trigger] line@[k] != '"',
    {
        assert(line@.take(i + 1).drop_last() =~= line@.take(i as int));
        if c == ',' {
            commas = commas + 1;
        }
        if c == '"' {
            if first == len {
                first = i;
            }
            end = i + 1;
        }
        i = i + 1;
    }
    proof {
        assert(line@.take(len as int) =~= line@);
        lemma_first_quote_at(line@, first as int);
        lemma_last_quote_end_at(line@, end as int);
    }
    (commas, first, end)
}

/// Takes the first and the last quote out of `line`; a line with fewer
/// than two quotes stays as it is.
pub fn remove_bookending_quotes(line: &str) -> (r: String)
    ensures
        r@ == without_bookending_quotes(line@),
{
    let (_, first, end) = scan(line);
    cut(line, first, end)
}

/// `line` without the quote at `first` and the quote before `end`, where
/// these are two.
fn cut(line: &str, first: usize, end: usize) -> (r: String)
    requires
        first == first_quote(line@),
        end == last_quote_end(line@),
        first <= line@.len(),
        end <= line@.len(),
    ensures
        r@ == without_bookending_quotes(line@),
{
    if end >= 2 && first < end - 1 {
        let len = line.unicode_len();
        let mut out = String::from_str(line.substring_char(0, first));
        out.append(line.substring_char(first + 1, end - 1));
        out.append(line.substring_char(end, len));
        out
    } else {
        String::from_str(line)
    }
}

/// Repairs one line: a line with exactly two commas loses its first and
/// its last quote, any other line stays as it is.
pub fn repair_line(line: &str) -> (r: String)
    ensures
        r@ == repaired(line@),
{
    let (commas, first, end) = scan(line);
    if commas == 2 {
        cut(line, first, end)
    } else {
        String::from_str(line)
    }
}

} // verus!
