//! Where the events come from, in which format, and how a duration is
//! written on the command line.

use crate::decimal::{decimal_value, is_digit, value_of_digit};
use crate::text::same_text;
use vstd::prelude::*;
use vstd::string::*;

verus! {

/// A repair that is applied to comma-separated input before it is read.
#[derive(Debug, Clone, Copy, PartialEq, Eq)]
pub enum CsvHandling {
    /// Takes the surplus quotes out of lines with three fields.
    WhisperCppFix,
}

/// The format of the input.
#[derive(Debug, Clone, Copy, PartialEq, Eq)]
pub enum Format {
    /// Comma-separated values, with a repair or without.
    Csv(Option<CsvHandling>),
    /// A sequence of JSON objects.
    Json,
}

impl Default for Format {
    /// Comma-separated values with the repair.
    fn default() -> (r: Self)
        ensures
            r == Format::Csv(Some(CsvHandling::WhisperCppFix)),
    {
        Format::Csv(Some(CsvHandling::WhisperCppFix))
    }
}

impl Format {
    /// The format that the name stands for on the command line.
    pub open spec fn named(name: Seq<char>) -> Option<Format> {
        if name == "csv-fix"@ {
            Some(Format::Csv(Some(CsvHandling::WhisperCppFix)))
        } else if name == "csv"@ {
            Some(Format::Csv(None))
        } else if name == "json"@ {
            Some(Format::Json)
        } else {
            None
        }
    }

    /// The name of the format on the command line.
    pub fn name(&self) -> (r: &'static str)
        ensures
            r@ == match *self {
                Format::Csv(Some(_)) => "csv-fix"@,
                Format::Csv(None) => "csv"@,
                Format::Json => "json"@,
            },
            Format::named(r@) == Some(*self),
    {
        proof {
            reveal_strlit("csv-fix");
            reveal_strlit("csv");
            reveal_strlit("json");
            assert("csv-fix"@.len() == 7);
            assert("csv"@.len() == 3);
            assert("json"@.len() == 4);
        }
        match self {
            Format::Csv(Some(h)) => {
                assert(*h == CsvHandling::WhisperCppFix);
                "csv-fix"
            },
            Format::Csv(None) => "csv",
            Format::Json => "json",
        }
    }

    /// The format that `name` stands for, or a message that says that it
    /// stands for none.
    pub fn parse(name: &str) -> (r: Result<Format, String>)
        ensures
            match Format::named(name@) {
                Some(f) => r == Ok::<Format, String>(f),
                None => r is Err && r->Err_0@ == "invalid input format"@,
            },
    {
        if same_text(name, "csv-fix") {
            Ok(Format::Csv(Some(CsvHandling::WhisperCppFix)))
        } else if same_text(name, "csv") {
            Ok(Format::Csv(None))
        } else if same_text(name, "json") {
            Ok(Format::Json)
        } else {
            Err(String::from_str("invalid input format"))
        }
    }
}

/// Where the input is read from.
#[derive(Debug, Clone, PartialEq, Eq)]
pub enum Source {
    /// The standard input stream.
    Stdin,
    /// The file at this path.
    File(String),
}

impl Source {
    /// The source that `s` names: `-` is the standard input stream,
    /// anything else is the path of a file.
    pub fn parse(s: &str) -> (r: Result<Source, String>)
        ensures
            r is Ok,
            s@ == "-"@ ==> r->Ok_0 == Source::Stdin,
            s@ != "-"@ ==> r->Ok_0 is File && r->Ok_0->File_0@ == s@,
    {
        if same_text(s, "-") {
            Ok(Source::Stdin)
        } else {
            Ok(Source::File(String::from_str(s)))
        }
    }
}

/// The input of a run: its format and its source.
#[derive(Debug, Clone)]
pub struct Input {
    format: Format,
    source: Source,
}

impl Input {
    /// The format of the input.
    pub closed spec fn spec_format(&self) -> Format {
        self.format
    }

    /// The source of the input.
    pub closed spec fn spec_source(&self) -> Source {
        self.source
    }

    /// An input of the given format from the given source.
    pub fn new(format: Format, source: Source) -> (r: Input)
        ensures
            r.spec_format() == format,
            r.spec_source() == source,
    {
        Input { format, source }
    }

    /// The source to read the input from.
    pub fn source(&self) -> (r: &Source)
        ensures
            *r == self.spec_source(),
    {
        &self.source
    }

    /// The format of the input.
    pub fn format(&self) -> (r: &Format)
        ensures
            *r == self.spec_format(),
    {
        &self.format
    }
}

/// Why a text is no duration.
#[derive(Debug, Clone, Copy, PartialEq, Eq)]
pub enum DurationError {
    /// The text does not begin with a digit.
    NoDigits,
    /// Nothing follows the digits.
    NoUnit,
    /// The digits denote a number that is too large.
    BadDigits,
    /// What follows the digits is neither `s` nor `ms`.
    BadUnit,
}

impl DurationError {
    /// The error in words.
    pub fn message(&self) -> (r: &'static str)
        ensures
            r@ == match *self {
                DurationError::NoDigits => "no digits found in value"@,
                DurationError::NoUnit => "no unit found in value"@,
                DurationError::BadDigits => "couldn't parse digits"@,
                DurationError::BadUnit => "invalid duration unit; expected 's' or 'ms'"@,
            },
    {
        match self {
            DurationError::NoDigits => "no digits found in value",
            DurationError::NoUnit => "no unit found in value",
            DurationError::BadDigits => "couldn't parse digits",
            DurationError::BadUnit => "invalid duration unit; expected 's' or 'ms'",
        }
    }
}

/// The number of digits that `s` begins with.
pub open spec fn digit_prefix_len(s: Seq<char>) -> nat
    decreases s.len(),
{
    if s.len() > 0 && is_digit(s.first()) {
        1 + digit_prefix_len(s.drop_first())
    } else {
        0
    }
}

/// The milliseconds that `s` denotes as a duration: decimal digits, then
/// the unit `s` for seconds or `ms` for milliseconds, and nothing else.
pub open spec fn duration_of(s: Seq<char>) -> Result<nat, DurationError> {
    let n = digit_prefix_len(s) as int;
    let number = decimal_value(s.take(n));
    let unit = s.skip(n);
    if n == 0 {
        Err(DurationError::NoDigits)
    } else if unit.len() == 0 {
        Err(DurationError::NoUnit)
    } else if number > usize::MAX {
        Err(DurationError::BadDigits)
    } else if unit == "s"@ {
        Ok(number * 1000)
    } else if unit == "ms"@ {
        Ok(number)
    } else {
        Err(DurationError::BadUnit)
    }
}

/// The digits end where the first character stands that is none.
pub proof fn lemma_digit_prefix_at(s: Seq<char>, a: int)
    requires
        0 <= a <= s.len(),
        forall|k: int| 0 <= k < a ==> is_digit(#[trigger] s[k]),
        a == s.len() || !is_digit(s[a]),
    ensures
        digit_prefix_len(s) == a,
    decreases a,
{
    if a > 0 {
        let rest = s.drop_first();
        assert(is_digit(s[0]));
        assert forall|k: int| 0 <= k < a - 1 implies is_digit(#[trigger] rest[k]) by {
            assert(rest[k] == s[k + 1]);
        }
        lemma_digit_prefix_at(rest, a - 1);
    }
}

/// Reads durations as they are written on the command line.
#[derive(Debug, Clone, Copy)]
pub struct ParseDuration;

impl ParseDuration {
    /// The milliseconds that `value` denotes, or why it denotes none.
    pub fn parse_ref(&self, value: &str) -> (r: Result<u128, DurationError>)
        ensures
            match duration_of(value@) {
                Ok(ms) => r == Ok::<u128, DurationError>(ms as u128) && ms <= u128::MAX,
                Err(e) => r == Err::<u128, DurationError>(e),
            },
    {
        broadcast use vstd::string::group_string_axioms;

        let len = value.unicode_len();
        let mut digits: usize = 0;
        let mut in_digits = true;
        let mut number: usize = 0;
        let mut too_large = false;
        let mut i: usize = 0;
        for c in it: value.chars()
            invariant
                it.seq() == value@,
                len == value@.len(),
                i == it.index(),
                digits <= i,
                in_digits ==> digits == i,
                !in_digits ==> digits < i && !is_digit(value@[digits as int]),
                forall|k: int| 0 <= k < digits ==> is_digit(#[trigger] value@[k]),
                !too_large ==> number == decimal_value(value@.take(digits as int)),
                too_large ==> decimal_value(value@.take(digits as int)) > usize::MAX,
        {
            if in_digits {
                match value_of_digit(c) {
                    Some(d) => {
                        proof {
                            let longer = value@.take(digits + 1);
                            assert(longer.drop_last() =~= value@.take(digits as int));
                            assert(longer.last() == c);
                        }
                        if !too_large {
                            let next = match number.checked_mul(10) {
                                Some(tens) => tens.checked_add(d as usize),
                                None => None,
                            };
                            match next {
                                Some(n) => {
                                    number = n;
                                },
                                None => {
                                    too_large = true;
                                },
                            }
                        }
                        digits = digits + 1;
                    },
                    None => {
                        in_digits = false;
                    },
                }
            }
            i = i + 1;
        }
        proof {
            lemma_digit_prefix_at(value@, digits as int);
        }
        if digits == 0 {
            return Err(DurationError::NoDigits);
        }
        if digits == len {
            return Err(DurationError::NoUnit);
        }
        if too_large {
            return Err(DurationError::BadDigits);
        }
        let unit = value.substring_char(digits, len);
        assert(unit@ =~= value@.skip(digits as int));
        if same_text(unit, "s") {
            Ok(number as u128 * 1000)
        } else if same_text(unit, "ms") {
            proof {
                reveal_strlit("s");
                reveal_strlit("ms");
            }
            Ok(number as u128)
        } else {
            Err(DurationError::BadUnit)
        }
    }
}

} // verus!
