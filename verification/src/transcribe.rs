//! Timed events as values, sequences of them, and the operators that
//! reshape such a sequence.

use crate::event::{
    chronological, fused, joined_text, lemma_fused_push, lemma_joined_text_one, utterance, Event,
    MAX_UTTERANCE_DURATION,
};
use crate::grouping::{
    continuation_rule, first_run_len, join_continuations, lemma_join_unfold,
    lemma_runs_empty, lemma_runs_unfold, regroup, run_len, silence, Grouping,
};
use crate::text::{begins_mid_token, count_words, is_sentence, trimmed};
use vstd::prelude::*;
use vstd::string::*;

verus! {

/// One timed speech segment. It never ends before it starts.
#[derive(Debug, PartialEq, Eq)]
pub struct Timing {
    start: u32,
    end: u32,
    text: String,
}

impl View for Timing {
    type V = Event;

    closed spec fn view(&self) -> Event {
        Event { start: self.start as nat, end: self.end as nat, text: self.text@ }
    }
}

impl Clone for Timing {
    fn clone(&self) -> (r: Self)
        ensures
            r@ == self@,
    {
        proof {
            use_type_invariant(self);
        }
        Self { start: self.start, end: self.end, text: self.text.clone() }
    }
}

/// The events that a vector of timings stands for.
pub open spec fn events_of(timings: Seq<Timing>) -> Seq<Event> {
    timings.map_values(|t: Timing| t@)
}

impl Timing {
    #[verifier::type_invariant]
    spec fn ends_after_start(&self) -> bool {
        self.start <= self.end
    }

    /// The event from `start` to `end` with `text`, unless it would end
    /// before it starts.
    pub fn new(start: u32, end: u32, text: String) -> (r: Option<Timing>)
        ensures
            r is Some <==> start <= end,
            r matches Some(t) ==> t@ == (Event {
                start: start as nat,
                end: end as nat,
                text: text@,
            }),
    {
        if start <= end {
            Some(Timing { start, end, text })
        } else {
            None
        }
    }

    /// The millisecond at which the event starts.
    pub fn start(&self) -> (r: u32)
        ensures
            r == self@.start,
            self@.wf(),
    {
        proof {
            use_type_invariant(self);
        }
        self.start
    }

    /// The millisecond at which the event ends.
    pub fn end(&self) -> (r: u32)
        ensures
            r == self@.end,
            self@.wf(),
    {
        proof {
            use_type_invariant(self);
        }
        self.end
    }

    /// The milliseconds from start to end.
    pub fn duration(&self) -> (r: u32)
        ensures
            r == self@.duration(),
            r == self@.end - self@.start,
    {
        proof {
            use_type_invariant(self);
        }
        self.end - self.start
    }

    /// The text as it came, whitespace included.
    pub fn text(&self) -> (r: &str)
        ensures
            r@ == self@.text,
    {
        self.text.as_str()
    }

    /// The text without its leading and trailing whitespace.
    pub fn content(&self) -> (r: &str)
        ensures
            r@ == self@.content(),
    {
        trimmed(self.text.as_str())
    }

    /// The event that spans `self` and `other`.
    pub fn combine(&self, other: &Self) -> (r: Self)
        requires
            self@.start <= other@.end,
        ensures
            r@ == self@.combine(other@),
    {
        let mut text = self.text.clone();
        text.append(other.text.as_str());
        Self { start: self.start, end: other.end, text }
    }

    /// Like `combine`, but the time range of `self` stays.
    pub fn absorb(&self, other: &Self) -> (r: Self)
        ensures
            r@ == self@.absorb(other@),
    {
        proof {
            use_type_invariant(self);
        }
        let mut text = self.text.clone();
        text.append(other.text.as_str());
        Self { start: self.start, end: self.end, text }
    }

    /// Whether the event goes on in the middle of a token of the event
    /// before it.
    pub fn is_continuation(&self) -> (r: bool)
        ensures
            r == self@.is_continuation(),
    {
        begins_mid_token(self.text.as_str())
    }

    /// The event cut to the longest duration of an utterance.
    fn clamped(self) -> (r: Self)
        ensures
            r@ == self@.clamped(),
    {
        proof {
            use_type_invariant(&self);
        }
        if self.end - self.start > MAX_UTTERANCE_DURATION {
            Self { start: self.start, end: self.start + MAX_UTTERANCE_DURATION, text: self.text }
        } else {
            self
        }
    }
}

/// A sequence of timed events in the order of their start times.
pub struct Iter {
    inner: Vec<Timing>,
}

impl View for Iter {
    type V = Seq<Event>;

    closed spec fn view(&self) -> Seq<Event> {
        events_of(self.inner@)
    }
}

/// The milliseconds from the end of one event to the start of the next,
/// none where they overlap.
fn gap_between(end: u32, start: u32) -> (r: u32)
    ensures
        r == if start >= end {
            start - end
        } else {
            0
        },
{
    if start >= end {
        start - end
    } else {
        0
    }
}

/// Whether the run that `acc` holds takes `next` under `op`. `quiet` is the
/// silence inside the run, `count` the number of its events.
fn takes(
    op: Grouping,
    acc: &Timing,
    quiet: u128,
    count: usize,
    next: &Timing,
    Ghost(run): Ghost<Seq<Event>>,
) -> (r: bool)
    requires
        run.len() > 0,
        acc@ == fused(run),
        quiet == silence(run),
        count == run.len(),
    ensures
        r == op.continues(run, next@),
{
    match op {
        Grouping::MaxSilence(d) => {
            let g = gap_between(acc.end(), next.start());
            match quiet.checked_add(g as u128) {
                Some(total) => total < d,
                None => false,
            }
        },
        Grouping::ByGap(d) => (gap_between(acc.end(), next.start()) as u128) < d,
        Grouping::Sentences => !is_sentence(acc.text()),
        Grouping::MinWordCount(n) => count_words(acc.text()) < n,
        Grouping::Lasting(d) => (acc.duration() as u128) < d,
        Grouping::Chunks(k) => count < k,
    }
}

impl Iter {
    #[verifier::type_invariant]
    spec fn in_order(&self) -> bool {
        chronological(events_of(self.inner@))
    }

    /// The sequence of `timings`, unless their start times go back
    /// somewhere.
    pub fn new(timings: Vec<Timing>) -> (r: Option<Iter>)
        ensures
            r is Some <==> chronological(events_of(timings@)),
            r matches Some(it) ==> it@ == events_of(timings@),
    {
        let ghost xs = events_of(timings@);
        let n = timings.len();
        let mut i: usize = 0;
        while i < n
            invariant
                n == timings.len(),
                xs == events_of(timings@),
                i <= n,
                forall|k: int| 0 <= k < i ==> (#[trigger] xs[k]).wf(),
                forall|k: int| 0 < k < i ==> (#[trigger] xs[k - 1]).start <= xs[k].start,
            decreases n - i,
        {
            let t = &timings[i];
            assert(xs[i as int] == t@);
            let start = t.start();
            if i > 0 {
                let before = &timings[i - 1];
                assert(xs[i - 1] == before@);
                if before.start() > start {
                    assert(!(xs[i - 1].start <= xs[i as int].start));
                    return None;
                }
            }
            i = i + 1;
        }
        proof {
            lemma_steps_ascend(xs);
        }
        Some(Iter { inner: timings })
    }

    /// The events as a vector, in order.
    pub fn into_vec(self) -> (r: Vec<Timing>)
        ensures
            events_of(r@) == self@,
            chronological(self@),
    {
        proof {
            use_type_invariant(&self);
        }
        self.inner
    }

    /// The number of events.
    pub fn len(&self) -> (r: usize)
        ensures
            r == self@.len(),
    {
        self.inner.len()
    }

    /// Event `i` of the sequence.
    pub fn get(&self, i: usize) -> (r: &Timing)
        requires
            i < self@.len(),
        ensures
            r@ == self@[i as int],
    {
        &self.inner[i]
    }

    /// The sequence with the runs that `op` cuts it into fused into one
    /// event each.
    pub fn regroup(self, op: Grouping) -> (out: Iter)
        ensures
            out@ == op.apply(self@),
            chronological(self@),
            chronological(out@),
    {
        proof {
            use_type_invariant(&self);
        }
        let v = self.inner;
        let ghost xs = events_of(v@);
        let ghost rule = op.rule();
        let n = v.len();
        let mut out: Vec<Timing> = Vec::new();
        let mut i: usize = 0;
        proof {
            assert(xs.skip(0) =~= xs);
            assert(events_of(out@) =~= Seq::<Event>::empty());
            assert(events_of(out@) + regroup(xs, rule) =~= regroup(xs, rule));
        }
        while i < n
            invariant
                n == v.len(),
                xs == events_of(v@),
                rule == op.rule(),
                chronological(xs),
                i <= n,
                events_of(out@) + regroup(xs.skip(i as int), rule) == regroup(xs, rule),
                chronological(events_of(out@)),
                out.len() > 0 && i < n ==> events_of(out@).last().start <= xs[i as int].start,
            decreases n - i,
        {
            let ghost rest = xs.skip(i as int);
            let mut acc = v[i].clone();
            let mut quiet: u128 = 0;
            let mut j: usize = i + 1;
            proof {
                assert(xs[i as int] == v[i as int]@);
                assert(xs.subrange(i as int, j as int) =~= seq![xs[i as int]]);
                lemma_joined_text_one(xs[i as int]);
            }
            while j < n && takes(
                op,
                &acc,
                quiet,
                j - i,
                &v[j],
                Ghost(xs.subrange(i as int, j as int)),
            )
                invariant
                    n == v.len(),
                    xs == events_of(v@),
                    rule == op.rule(),
                    rest == xs.skip(i as int),
                    chronological(xs),
                    i < j <= n,
                    acc@ == fused(xs.subrange(i as int, j as int)),
                    quiet == silence(xs.subrange(i as int, j as int)),
                    quiet <= (j - i) * 0x1_0000_0000,
                    first_run_len(rest, rule) == run_len(rest, rule, (j - i) as nat),
                    j < n ==> v[j as int]@ == xs[j as int],
                decreases n - j,
            {
                let ghost run = xs.subrange(i as int, j as int);
                let next = &v[j];
                proof {
                    assert(next@ == xs[j as int]);
                    assert(rest.take(j - i) =~= run);
                    assert(rest[j - i] == xs[j as int]);
                    assert(rule(run, xs[j as int]));
                    let longer = xs.subrange(i as int, j + 1);
                    assert(longer =~= run.push(xs[j as int]));
                    assert(longer.drop_last() =~= run);
                    assert(longer[longer.len() - 2] == run.last());
                    lemma_fused_push(run, xs[j as int]);
                    assert(xs[i as int].start <= xs[j as int].start);
                    assert(xs[j as int].wf());
                }
                quiet = quiet + gap_between(acc.end(), next.start()) as u128;
                acc = acc.combine(next);
                j = j + 1;
            }
            proof {
                let run = xs.subrange(i as int, j as int);
                assert(rest.take(j - i) =~= run);
                if j < n {
                    assert(rest[j - i] == xs[j as int]);
                }
                assert(first_run_len(rest, rule) == j - i);
                lemma_runs_unfold(rest, rule);
                assert(rest.skip(j - i) =~= xs.skip(j as int));
                let before = events_of(out@);
                let after = before.push(acc@);
                assert(after + regroup(xs.skip(j as int), rule) =~= before + regroup(rest, rule));
                assert(xs[j - 1].wf());
                assert(xs[i as int].start <= xs[j - 1].start);
                assert(events_of(out@.push(acc)) =~= after);
                assert(chronological(after)) by {
                    assert forall|a: int, b: int| 0 <= a <= b < after.len() implies after[a].start
                        <= after[b].start by {
                        if b == after.len() - 1 && a < b {
                            assert(before[a].start <= before.last().start);
                        }
                    }
                }
                if j < n {
                    assert(xs[i as int].start <= xs[j as int].start);
                }
            }
            out.push(acc);
            i = j;
        }
        proof {
            lemma_runs_empty(rule);
            assert(xs.skip(n as int) =~= Seq::<Event>::empty());
            assert(events_of(out@) + Seq::<Event>::empty() =~= events_of(out@));
        }
        Iter { inner: out }
    }

    /// Fuses events until the text ends a sentence.
    pub fn sentences(self) -> (out: Iter)
        ensures
            out@ == Grouping::Sentences.apply(self@),
            chronological(out@),
    {
        self.regroup(Grouping::Sentences)
    }

    /// Fuses events while the silence inside the run, with the gap to the
    /// next event, stays under `max_silence` milliseconds.
    pub fn max_silence(self, max_silence: u128) -> (out: Iter)
        ensures
            out@ == Grouping::MaxSilence(max_silence).apply(self@),
            chronological(out@),
    {
        self.regroup(Grouping::MaxSilence(max_silence))
    }

    /// Fuses events while the text holds fewer than `min_words` tokens.
    pub fn min_word_count(self, min_words: usize) -> (out: Iter)
        ensures
            out@ == Grouping::MinWordCount(min_words).apply(self@),
            chronological(out@),
    {
        self.regroup(Grouping::MinWordCount(min_words))
    }

    /// Fuses events while the gap to the next event is under `gap_size`
    /// milliseconds.
    pub fn by_gap(self, gap_size: u128) -> (out: Iter)
        ensures
            out@ == Grouping::ByGap(gap_size).apply(self@),
            chronological(out@),
    {
        self.regroup(Grouping::ByGap(gap_size))
    }

    /// Fuses events while the run lasts less than `window_size`
    /// milliseconds.
    pub fn lasting(self, window_size: u128) -> (out: Iter)
        ensures
            out@ == Grouping::Lasting(window_size).apply(self@),
            chronological(out@),
    {
        self.regroup(Grouping::Lasting(window_size))
    }

    /// Fuses events in runs of `chunk_count`; the last run takes what is
    /// left.
    pub fn chunks(self, chunk_count: usize) -> (out: Iter)
        ensures
            out@ == Grouping::Chunks(chunk_count).apply(self@),
            chronological(out@),
    {
        self.regroup(Grouping::Chunks(chunk_count))
    }
}

/// What a sequence of timed events offers before any grouping.
pub trait IteratorExt: Sized {
    /// The events of the sequence.
    spec fn events(&self) -> Seq<Event>;

    /// Makes one utterance of every fragment and the continuations behind
    /// it: the texts are joined, the time range is that of the fragment,
    /// and no utterance lasts longer than `MAX_UTTERANCE_DURATION`.
    fn join_continuations(self) -> (out: Iter)
        ensures
            out@ == join_continuations(self.events()),
            chronological(out@),
    ;

    /// The sequence as it is.
    fn boxed(self) -> (out: Iter)
        ensures
            out@ == self.events(),
            chronological(out@),
    ;
}

impl IteratorExt for Iter {
    open spec fn events(&self) -> Seq<Event> {
        self@
    }

    fn join_continuations(self) -> (out: Iter) {
        proof {
            use_type_invariant(&self);
        }
        let v = self.inner;
        let ghost xs = events_of(v@);
        let ghost rule = continuation_rule();
        let n = v.len();
        let mut out: Vec<Timing> = Vec::new();
        let mut i: usize = 0;
        proof {
            assert(xs.skip(0) =~= xs);
            assert(events_of(out@) =~= Seq::<Event>::empty());
            assert(events_of(out@) + join_continuations(xs) =~= join_continuations(xs));
        }
        while i < n
            invariant
                n == v.len(),
                xs == events_of(v@),
                rule == continuation_rule(),
                chronological(xs),
                i <= n,
                events_of(out@) + join_continuations(xs.skip(i as int)) == join_continuations(xs),
                chronological(events_of(out@)),
                out.len() > 0 && i < n ==> events_of(out@).last().start <= xs[i as int].start,
            decreases n - i,
        {
            let ghost rest = xs.skip(i as int);
            let mut acc = v[i].clone();
            let mut j: usize = i + 1;
            proof {
                assert(xs[i as int] == v[i as int]@);
                assert(xs.subrange(i as int, j as int) =~= seq![xs[i as int]]);
                lemma_joined_text_one(xs[i as int]);
            }
            while j < n && v[j].is_continuation()
                invariant
                    n == v.len(),
                    xs == events_of(v@),
                    rule == continuation_rule(),
                    rest == xs.skip(i as int),
                    i < j <= n,
                    acc@ == (Event {
                        start: xs[i as int].start,
                        end: xs[i as int].end,
                        text: joined_text(xs.subrange(i as int, j as int)),
                    }),
                    first_run_len(rest, rule) == run_len(rest, rule, (j - i) as nat),
                    j < n ==> v[j as int]@ == xs[j as int],
                decreases n - j,
            {
                let ghost run = xs.subrange(i as int, j as int);
                proof {
                    assert(rest.take(j - i) =~= run);
                    assert(rest[j - i] == xs[j as int]);
                    assert(rule(run, xs[j as int]));
                    assert(xs.subrange(i as int, j + 1) =~= run.push(xs[j as int]));
                    lemma_fused_push(run, xs[j as int]);
                }
                acc = acc.absorb(&v[j]);
                j = j + 1;
            }
            let whole = acc.clamped();
            proof {
                let run = xs.subrange(i as int, j as int);
                assert(rest.take(j - i) =~= run);
                if j < n {
                    assert(rest[j - i] == xs[j as int]);
                }
                assert(first_run_len(rest, rule) == j - i);
                lemma_join_unfold(rest);
                assert(rest.skip(j - i) =~= xs.skip(j as int));
                assert(whole@ == utterance(run));
                let before = events_of(out@);
                let after = before.push(whole@);
                assert(after + join_continuations(xs.skip(j as int)) =~= before
                    + join_continuations(rest));
                assert(xs[i as int].wf());
                assert(events_of(out@.push(whole)) =~= after);
                assert(chronological(after)) by {
                    assert forall|a: int, b: int| 0 <= a <= b < after.len() implies after[a].start
                        <= after[b].start by {
                        if b == after.len() - 1 && a < b {
                            assert(before[a].start <= before.last().start);
                        }
                    }
                }
                if j < n {
                    assert(xs[i as int].start <= xs[j as int].start);
                }
            }
            out.push(whole);
            i = j;
        }
        proof {
            lemma_runs_empty(rule);
            assert(xs.skip(n as int) =~= Seq::<Event>::empty());
            assert(events_of(out@) + Seq::<Event>::empty() =~= events_of(out@));
        }
        Iter { inner: out }
    }

    fn boxed(self) -> (out: Iter) {
        proof {
            use_type_invariant(&self);
        }
        self
    }
}

/// Start times that never go back from one event to the next never go back
/// at all.
proof fn lemma_steps_ascend(xs: Seq<Event>)
    requires
        forall|k: int| 0 <= k < xs.len() ==> (#[trigger] xs[k]).wf(),
        forall|k: int| 0 < k < xs.len() ==> (#[trigger] xs[k - 1]).start <= xs[k].start,
    ensures
        chronological(xs),
{
    assert forall|i: int, j: int| 0 <= i <= j < xs.len() implies xs[i].start <= xs[j].start by {
        lemma_steps_reach(xs, i, j);
    }
}

proof fn lemma_steps_reach(xs: Seq<Event>, i: int, j: int)
    requires
        0 <= i <= j < xs.len(),
        forall|k: int| 0 < k < xs.len() ==> (#[trigger] xs[k - 1]).start <= xs[k].start,
    ensures
        xs[i].start <= xs[j].start,
    decreases j - i,
{
    if i < j {
        lemma_steps_reach(xs, i, j - 1);
        assert(xs[j - 1].start <= xs[j].start);
    }
}

} // verus!
