//! Events as text: the form for people and the subtitle form.

use crate::clock::{
    clock_text, format_clock_value, format_srt_value, srt_timestamp, ClockScale,
};
use crate::decimal::{decimal, push_decimal};
use crate::event::Event;
use crate::transcribe::{Iter, Timing};
use vstd::prelude::*;
use vstd::string::*;

verus! {

/// An event for people to read: the clock values of its start and its end,
/// its duration in seconds between brackets, and on the next line its text
/// without the whitespace around it.
pub open spec fn pretty_text(e: Event) -> Seq<char> {
    clock_text(e.start, ClockScale::Minutes) + " - "@ + clock_text(e.end, ClockScale::Minutes)
        + " ("@ + clock_text(e.duration(), ClockScale::Seconds) + ")\n"@ + e.content()
}

/// The events for people to read, each followed by an empty line.
pub open spec fn pretty_document(xs: Seq<Event>) -> Seq<char>
    decreases xs.len(),
{
    if xs.len() == 0 {
        Seq::empty()
    } else {
        pretty_document(xs.drop_last()) + pretty_text(xs.last()) + "\n\n"@
    }
}

/// One subtitle: its number, the line of its two timestamps, its text
/// without the whitespace around it, and an empty line.
pub open spec fn srt_entry(number: nat, e: Event) -> Seq<char> {
    decimal(number) + "\n"@ + srt_timestamp(e.start) + " --> "@ + srt_timestamp(e.end) + "\n"@
        + e.content() + "\n\n"@
}

/// The events as subtitles, numbered from one.
pub open spec fn srt_document(xs: Seq<Event>) -> Seq<char>
    decreases xs.len(),
{
    if xs.len() == 0 {
        Seq::empty()
    } else {
        srt_document(xs.drop_last()) + srt_entry(xs.len(), xs.last())
    }
}

impl Timing {
    /// The event for people to read.
    pub fn to_string(&self) -> (r: String)
        ensures
            r@ == pretty_text(self@),
    {
        let mut out = format_clock_value(self.start(), None);
        out.append(" - ");
        out.append(format_clock_value(self.end(), None).as_str());
        out.append(" (");
        out.append(format_clock_value(self.duration(), Some(ClockScale::Seconds)).as_str());
        out.append(")\n");
        out.append(self.content());
        out
    }

    /// The event as the subtitle with the given number.
    pub fn to_srt(&self, number: u64) -> (r: String)
        ensures
            r@ == srt_entry(number as nat, self@),
    {
        let mut out = String::new();
        push_decimal(&mut out, number);
        out.append("\n");
        out.append(format_srt_value(self.start()).as_str());
        out.append(" --> ");
        out.append(format_srt_value(self.end()).as_str());
        out.append("\n");
        out.append(self.content());
        out.append("\n\n");
        assert(out@ =~= srt_entry(number as nat, self@));
        out
    }
}

impl Iter {
    /// The events as subtitles, numbered from one.
    pub fn write_srt(self) -> (r: String)
        ensures
            r@ == srt_document(self@),
    {
        let n = self.len();
        let mut out = String::new();
        let mut i: usize = 0;
        while i < n
            invariant
                n == self@.len(),
                i <= n,
                out@ == srt_document(self@.take(i as int)),
            decreases n - i,
        {
            proof {
                let longer = self@.take(i + 1);
                assert(longer.drop_last() =~= self@.take(i as int));
                assert(longer.last() == self@[i as int]);
            }
            let entry = self.get(i).to_srt((i + 1) as u64);
            out.append(entry.as_str());
            i = i + 1;
        }
        assert(self@.take(n as int) =~= self@);
        out
    }

    /// The events for people to read, each followed by an empty line.
    pub fn write_pretty(self) -> (r: String)
        ensures
            r@ == pretty_document(self@),
    {
        let n = self.len();
        let mut out = String::new();
        let mut i: usize = 0;
        while i < n
            invariant
                n == self@.len(),
                i <= n,
                out@ == pretty_document(self@.take(i as int)),
            decreases n - i,
        {
            proof {
                let longer = self@.take(i + 1);
                assert(longer.drop_last() =~= self@.take(i as int));
                assert(longer.last() == self@[i as int]);
            }
            let text = self.get(i).to_string();
            out.append(text.as_str());
            out.append("\n\n");
            i = i + 1;
        }
        assert(self@.take(n as int) =~= self@);
        out
    }
}

} // verus!
