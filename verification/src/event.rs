//! The mathematical model of a timed speech segment and of sequences of
//! such segments. Everything else in the crate is stated over it.

use crate::text::{starts_mid_token, trim};
use vstd::prelude::*;

verus! {

/// The longest duration, in milliseconds, that an utterance keeps after
/// continuation joining.
pub const MAX_UTTERANCE_DURATION: u32 = 500;

/// One timed speech segment: `text` was spoken from `start` to `end`, both
/// in milliseconds from the same origin. The text is kept as it came,
/// whitespace at either end included.
#[verifier::ext_equal]
pub struct Event {
    pub start: nat,
    pub end: nat,
    pub text: Seq<char>,
}

impl Event {
    /// An event does not end before it starts.
    pub open spec fn wf(self) -> bool {
        self.start <= self.end
    }

    /// The milliseconds from start to end; zero for an event that would end
    /// before it starts.
    pub open spec fn duration(self) -> nat {
        if self.end >= self.start {
            (self.end - self.start) as nat
        } else {
            0
        }
    }

    /// The text without its leading and trailing whitespace.
    pub open spec fn content(self) -> Seq<char> {
        trim(self.text)
    }

    /// Whether the event goes on in the middle of a token of the event
    /// before it: its text is not empty and does not begin with whitespace.
    pub open spec fn is_continuation(self) -> bool {
        starts_mid_token(self.text)
    }

    /// The event that spans `self` and `other`: from the start of `self` to
    /// the end of `other`, with both texts, nothing put between them.
    pub open spec fn combine(self, other: Event) -> Event {
        Event { start: self.start, end: other.end, text: self.text + other.text }
    }

    /// The event that keeps the time range of `self` and takes the text of
    /// `other` behind its own.
    pub open spec fn absorb(self, other: Event) -> Event {
        Event { start: self.start, end: self.end, text: self.text + other.text }
    }

    /// The event with its end brought forward so that it lasts no longer
    /// than `MAX_UTTERANCE_DURATION`; start and text stay.
    pub open spec fn clamped(self) -> Event {
        if self.duration() > MAX_UTTERANCE_DURATION {
            Event {
                start: self.start,
                end: self.start + MAX_UTTERANCE_DURATION as nat,
                text: self.text,
            }
        } else {
            self
        }
    }
}

/// The texts of `xs`, one after the other, with nothing between them.
pub open spec fn joined_text(xs: Seq<Event>) -> Seq<char>
    decreases xs.len(),
{
    if xs.len() == 0 {
        Seq::empty()
    } else {
        joined_text(xs.drop_last()) + xs.last().text
    }
}

/// The one event that a run of events becomes when each is combined with
/// the next: it starts with the first, ends with the last and holds all
/// their texts.
pub open spec fn fused(run: Seq<Event>) -> Event
    recommends
        run.len() > 0,
{
    Event { start: run.first().start, end: run.last().end, text: joined_text(run) }
}

/// The one utterance that a fragment and the continuations behind it
/// become: the time range of the fragment, cut to the longest duration,
/// and all the texts.
pub open spec fn utterance(run: Seq<Event>) -> Event
    recommends
        run.len() > 0,
{
    Event { start: run.first().start, end: run.first().end, text: joined_text(run) }.clamped()
}

/// Whether the start times of `xs` never go back.
pub open spec fn starts_ascend(xs: Seq<Event>) -> bool {
    forall|i: int, j: int| 0 <= i <= j < xs.len() ==> xs[i].start <= xs[j].start
}

/// Whether `xs` is a sequence that the operators work on: no event ends
/// before it starts, and the start times never go back.
pub open spec fn chronological(xs: Seq<Event>) -> bool {
    &&& forall|i: int| 0 <= i < xs.len() ==> (#[trigger] xs[i]).wf()
    &&& starts_ascend(xs)
}

/// The joined text of two sequences, one after the other, is the joined
/// text of the first followed by that of the second.
pub proof fn lemma_joined_text_concat(a: Seq<Event>, b: Seq<Event>)
    ensures
        joined_text(a + b) == joined_text(a) + joined_text(b),
    decreases b.len(),
{
    if b.len() == 0 {
        assert(a + b =~= a);
        assert(joined_text(a) + joined_text(b) =~= joined_text(a));
    } else {
        assert((a + b).drop_last() =~= a + b.drop_last());
        assert((a + b).last() == b.last());
        lemma_joined_text_concat(a, b.drop_last());
        assert(joined_text(a + b) =~= joined_text(a) + joined_text(b));
    }
}

/// The joined text of one event is its text.
pub proof fn lemma_joined_text_one(x: Event)
    ensures
        joined_text(seq![x]) == x.text,
        fused(seq![x]) == x,
{
    let s = seq![x];
    assert(s.drop_last() =~= Seq::<Event>::empty());
    assert(joined_text(Seq::<Event>::empty()) =~= Seq::<char>::empty());
    assert(joined_text(s) =~= x.text);
    assert(fused(s) =~= x);
}

/// Fusing a run with one more event is combining the fused run with it.
pub proof fn lemma_fused_push(run: Seq<Event>, next: Event)
    requires
        run.len() > 0,
    ensures
        fused(run.push(next)) == fused(run).combine(next),
        joined_text(run.push(next)) == joined_text(run) + next.text,
{
    let longer = run.push(next);
    assert(longer.drop_last() =~= run);
    assert(fused(longer) =~= fused(run).combine(next));
}

/// A part of a chronological sequence is chronological.
pub proof fn lemma_chronological_subrange(xs: Seq<Event>, from: int, to: int)
    requires
        chronological(xs),
        0 <= from <= to <= xs.len(),
    ensures
        chronological(xs.subrange(from, to)),
{
    let part = xs.subrange(from, to);
    assert forall|i: int| 0 <= i < part.len() implies (#[trigger] part[i]).wf() by {
        assert(xs[from + i].wf());
    }
}

/// What a run of a chronological sequence fuses to does not end before it
/// starts.
pub proof fn lemma_fused_wf(run: Seq<Event>)
    requires
        chronological(run),
        run.len() > 0,
    ensures
        fused(run).wf(),
        utterance(run).wf(),
{
    assert(run[run.len() - 1].wf());
    assert(run[0].wf());
    assert(run[0].start <= run[run.len() - 1].start);
}

} // verus!
