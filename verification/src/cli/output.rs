//! Where the events go, and in which format.

use crate::text::same_text;
use vstd::prelude::*;
use vstd::string::*;

verus! {

/// The format of the output.
#[derive(Debug, Clone, Copy, PartialEq, Eq)]
pub enum Format {
    /// Comma-separated values under the header `start,end,text`.
    Csv,
    /// One JSON array of objects.
    Json,
    /// Text for people to read.
    Pretty,
    /// Subtitles.
    Srt,
}

impl Format {
    /// The format that the name stands for on the command line.
    pub open spec fn named(name: Seq<char>) -> Option<Format> {
        if name == "csv"@ {
            Some(Format::Csv)
        } else if name == "json"@ {
            Some(Format::Json)
        } else if name == "pretty"@ {
            Some(Format::Pretty)
        } else if name == "srt"@ {
            Some(Format::Srt)
        } else {
            None
        }
    }

    /// The name of the format on the command line.
    pub fn name(&self) -> (r: &'static str)
        ensures
            r@ == match *self {
                Format::Csv => "csv"@,
                Format::Json => "json"@,
                Format::Pretty => "pretty"@,
                Format::Srt => "srt"@,
            },
            Format::named(r@) == Some(*self),
    {
        proof {
            reveal_strlit("csv");
            reveal_strlit("json");
            reveal_strlit("pretty");
            reveal_strlit("srt");
            assert("csv"@.len() == 3);
            assert("json"@.len() == 4);
            assert("pretty"@.len() == 6);
            assert("srt"@[0] == 's');
            assert("csv"@[0] == 'c');
        }
        match self {
            Format::Csv => "csv",
            Format::Json => "json",
            Format::Pretty => "pretty",
            Format::Srt => "srt",
        }
    }

    /// The format that `name` stands for, or a message that says that it
    /// stands for none.
    pub fn parse(name: &str) -> (r: Result<Format, String>)
        ensures
            match Format::named(name@) {
                Some(f) => r == Ok::<Format, String>(f),
                None => r is Err && r->Err_0@ == "invalid output format"@,
            },
    {
        if same_text(name, "csv") {
            Ok(Format::Csv)
        } else if same_text(name, "json") {
            Ok(Format::Json)
        } else if same_text(name, "pretty") {
            Ok(Format::Pretty)
        } else if same_text(name, "srt") {
            Ok(Format::Srt)
        } else {
            Err(String::from_str("invalid output format"))
        }
    }
}

/// Where the output is written to.
#[derive(Debug, Clone, PartialEq, Eq)]
pub enum Sink {
    /// The standard output stream.
    Stdout,
    /// The file at this path.
    File(String),
}

impl Sink {
    /// The sink that `s` names: `-` is the standard output stream,
    /// anything else is the path of a file.
    pub fn parse(s: &str) -> (r: Result<Sink, String>)
        ensures
            r is Ok,
            s@ == "-"@ ==> r->Ok_0 == Sink::Stdout,
            s@ != "-"@ ==> r->Ok_0 is File && r->Ok_0->File_0@ == s@,
    {
        if same_text(s, "-") {
            Ok(Sink::Stdout)
        } else {
            Ok(Sink::File(String::from_str(s)))
        }
    }
}

/// The output of a run: its format and its sink.
#[derive(Debug, Clone)]
pub struct Output {
    format: Format,
    sink: Sink,
}

impl Output {
    /// The format of the output.
    pub closed spec fn spec_format(&self) -> Format {
        self.format
    }

    /// The sink of the output.
    pub closed spec fn spec_sink(&self) -> Sink {
        self.sink
    }

    /// An output of the given format to the given sink.
    pub fn new(format: Format, sink: Sink) -> (r: Output)
        ensures
            r.spec_format() == format,
            r.spec_sink() == sink,
    {
        Output { format, sink }
    }

    /// The sink to write the output to.
    pub fn sink(&self) -> (r: &Sink)
        ensures
            *r == self.spec_sink(),
    {
        &self.sink
    }

    /// The format of the output.
    pub fn format(&self) -> (r: &Format)
        ensures
            *r == self.spec_format(),
    {
        &self.format
    }
}

} // verus!
