//! Runs and the rules that end them.
//!
//! A sequence of events is cut into runs, from left to right: a run begins
//! with the next event and takes the one after it for as long as a rule,
//! which sees the run so far and the event to come, says so. The grouping
//! operators fuse each run into one event; continuation joining makes one
//! utterance of each. They differ in the rule alone.

use crate::event::{fused, joined_text, utterance, Event};
use crate::text::{ends_sentence, word_count};
use vstd::prelude::*;

verus! {

/// A rule that says whether the run so far takes the event to come.
pub type Rule = spec_fn(Seq<Event>, Event) -> bool;

/// The silence between `last` and `next`: the milliseconds from the end of
/// the one to the start of the other, and none where they overlap.
pub open spec fn gap(last: Event, next: Event) -> nat {
    if next.start >= last.end {
        (next.start - last.end) as nat
    } else {
        0
    }
}

/// The silence inside a run: the gaps between its events, added up.
pub open spec fn silence(run: Seq<Event>) -> nat
    decreases run.len(),
{
    if run.len() <= 1 {
        0
    } else {
        silence(run.drop_last()) + gap(run[run.len() - 2], run.last())
    }
}

/// One of the six grouping operators, with its parameter. Durations are in
/// milliseconds.
#[derive(Debug, Clone, Copy)]
pub enum Grouping {
    /// A run goes on while the silence inside it, with the gap to the
    /// event to come, stays under the duration.
    MaxSilence(u128),
    /// A run goes on while the gap to the event to come is under the
    /// duration.
    ByGap(u128),
    /// A run goes on until its text ends a sentence.
    Sentences,
    /// A run goes on while its text holds fewer tokens than the number.
    MinWordCount(usize),
    /// A run goes on while it lasts less than the duration.
    Lasting(u128),
    /// A run goes on while it holds fewer events than the number.
    Chunks(usize),
}

impl Grouping {
    /// Whether `run`, the events fused so far, takes `next`.
    pub open spec fn continues(self, run: Seq<Event>, next: Event) -> bool {
        match self {
            Grouping::MaxSilence(d) => silence(run) + gap(run.last(), next) < d,
            Grouping::ByGap(d) => gap(run.last(), next) < d,
            Grouping::Sentences => !ends_sentence(joined_text(run)),
            Grouping::MinWordCount(n) => word_count(joined_text(run)) < n,
            Grouping::Lasting(d) => fused(run).duration() < d,
            Grouping::Chunks(k) => run.len() < k,
        }
    }

    /// The operator as a rule.
    pub open spec fn rule(self) -> Rule {
        |run: Seq<Event>, next: Event| self.continues(run, next)
    }

    /// The runs that the operator cuts `xs` into.
    pub open spec fn runs(self, xs: Seq<Event>) -> Seq<Seq<Event>> {
        runs(xs, self.rule())
    }

    /// What the operator makes of `xs`: each run fused into one event.
    pub open spec fn apply(self, xs: Seq<Event>) -> Seq<Event> {
        regroup(xs, self.rule())
    }
}

/// The rule of continuation joining: a run takes every continuation.
pub open spec fn continuation_rule() -> Rule {
    |run: Seq<Event>, next: Event| next.is_continuation()
}

/// The length of the first run of `xs`, given that it holds the first `n`
/// events already: it takes the events that follow one by one while the
/// rule says so and events are left.
pub open spec fn run_len(xs: Seq<Event>, rule: Rule, n: nat) -> nat
    decreases xs.len() - n,
{
    if n < xs.len() && rule(xs.take(n as int), xs[n as int]) {
        run_len(xs, rule, n + 1)
    } else {
        n
    }
}

/// The length of the first run of `xs`, which begins with the first event.
pub open spec fn first_run_len(xs: Seq<Event>, rule: Rule) -> nat {
    run_len(xs, rule, 1)
}

/// The runs of `xs` under `rule`, in order: the first run, then the runs of
/// what is left behind it.
pub open spec fn runs(xs: Seq<Event>, rule: Rule) -> Seq<Seq<Event>>
    decreases xs.len(),
    via runs_decreases
{
    if xs.len() == 0 {
        Seq::empty()
    } else {
        let n = first_run_len(xs, rule);
        seq![xs.take(n as int)] + runs(xs.skip(n as int), rule)
    }
}

#[via_fn]
proof fn runs_decreases(xs: Seq<Event>, rule: Rule) {
    if xs.len() != 0 {
        lemma_run_len_bounds(xs, rule, 1);
    }
}

/// `xs` with each of its runs under `rule` fused into one event.
pub open spec fn regroup(xs: Seq<Event>, rule: Rule) -> Seq<Event> {
    runs(xs, rule).map_values(|run: Seq<Event>| fused(run))
}

/// `xs` with every fragment and the continuations behind it made into one
/// utterance, which keeps the time range of the fragment, cut to the
/// longest duration.
pub open spec fn join_continuations(xs: Seq<Event>) -> Seq<Event> {
    runs(xs, continuation_rule()).map_values(|run: Seq<Event>| utterance(run))
}

/// The position in the input at which run `i` begins: the lengths of the
/// runs before it, added up.
pub open spec fn offset(rs: Seq<Seq<Event>>, i: nat) -> nat
    decreases i,
{
    if i == 0 || i > rs.len() {
        0
    } else {
        offset(rs, (i - 1) as nat) + rs[i - 1].len()
    }
}

/// A run never gives up an event and never reaches past the input.
pub proof fn lemma_run_len_bounds(xs: Seq<Event>, rule: Rule, n: nat)
    requires
        n <= xs.len(),
    ensures
        n <= run_len(xs, rule, n) <= xs.len(),
    decreases xs.len() - n,
{
    if n < xs.len() && rule(xs.take(n as int), xs[n as int]) {
        lemma_run_len_bounds(xs, rule, n + 1);
    }
}

/// A run ends where the input ends or where the rule refuses the event to
/// come, and nowhere before: the rule took every event inside it.
pub proof fn lemma_run_len_maximal(xs: Seq<Event>, rule: Rule, n: nat)
    requires
        n <= xs.len(),
    ensures
        ({
            let m = run_len(xs, rule, n);
            &&& m == xs.len() || !rule(xs.take(m as int), xs[m as int])
            &&& forall|k: int| n <= k < m ==> rule(#[trigger] xs.take(k), xs[k])
        }),
    decreases xs.len() - n,
{
    if n < xs.len() && rule(xs.take(n as int), xs[n as int]) {
        lemma_run_len_bounds(xs, rule, n + 1);
        lemma_run_len_maximal(xs, rule, n + 1);
    }
}

/// The runs of a sequence that is not empty: its first run, then the runs
/// of the rest.
pub proof fn lemma_runs_unfold(xs: Seq<Event>, rule: Rule)
    requires
        xs.len() > 0,
    ensures
        1 <= first_run_len(xs, rule) <= xs.len(),
        runs(xs, rule) == seq![xs.take(first_run_len(xs, rule) as int)] + runs(
            xs.skip(first_run_len(xs, rule) as int),
            rule,
        ),
        regroup(xs, rule) == seq![fused(xs.take(first_run_len(xs, rule) as int))] + regroup(
            xs.skip(first_run_len(xs, rule) as int),
            rule,
        ),
        runs(xs, rule).len() == 1 + runs(xs.skip(first_run_len(xs, rule) as int), rule).len(),
        runs(xs, rule)[0] == xs.take(first_run_len(xs, rule) as int),
{
    lemma_run_len_bounds(xs, rule, 1);
    let n = first_run_len(xs, rule) as int;
    let rest = runs(xs.skip(n), rule);
    let f = |run: Seq<Event>| fused(run);
    assert((seq![xs.take(n)] + rest).map_values(f) =~= seq![fused(xs.take(n))] + rest.map_values(
        f,
    ));
}

/// Continuation joining a sequence that is not empty: the utterance of its
/// first run, then the same of the rest.
pub proof fn lemma_join_unfold(xs: Seq<Event>)
    requires
        xs.len() > 0,
    ensures
        ({
            let n = first_run_len(xs, continuation_rule()) as int;
            &&& 1 <= n <= xs.len()
            &&& join_continuations(xs) == seq![utterance(xs.take(n))] + join_continuations(
                xs.skip(n),
            )
        }),
{
    let rule = continuation_rule();
    lemma_run_len_bounds(xs, rule, 1);
    let n = first_run_len(xs, rule) as int;
    let rest = runs(xs.skip(n), rule);
    let f = |run: Seq<Event>| utterance(run);
    assert((seq![xs.take(n)] + rest).map_values(f) =~= seq![utterance(xs.take(n))]
        + rest.map_values(f));
}

/// The empty sequence has no runs.
pub proof fn lemma_runs_empty(rule: Rule)
    ensures
        runs(Seq::<Event>::empty(), rule) == Seq::<Seq<Event>>::empty(),
        regroup(Seq::<Event>::empty(), rule) == Seq::<Event>::empty(),
        join_continuations(Seq::<Event>::empty()) == Seq::<Event>::empty(),
{
    assert(regroup(Seq::<Event>::empty(), rule) =~= Seq::<Event>::empty());
    assert(join_continuations(Seq::<Event>::empty()) =~= Seq::<Event>::empty());
}

/// The runs cut the input up: each run is the part of the input from its
/// offset to the offset of the next, no run is empty, and the last run
/// ends where the input ends.
pub proof fn lemma_runs_partition(xs: Seq<Event>, rule: Rule)
    ensures
        runs(xs, rule).len() <= xs.len(),
        xs.len() > 0 ==> runs(xs, rule).len() > 0,
        offset(runs(xs, rule), runs(xs, rule).len()) == xs.len(),
        forall|i: int|
            0 <= i < runs(xs, rule).len() ==> {
                let a = #[trigger] offset(runs(xs, rule), i as nat);
                let b = offset(runs(xs, rule), (i + 1) as nat);
                &&& a < b <= xs.len()
                &&& runs(xs, rule)[i] == xs.subrange(a as int, b as int)
            },
    decreases xs.len(),
{
    let rs = runs(xs, rule);
    if xs.len() > 0 {
        lemma_runs_unfold(xs, rule);
        let n = first_run_len(xs, rule) as int;
        let rest = xs.skip(n);
        let rrs = runs(rest, rule);
        lemma_runs_partition(rest, rule);
        assert forall|k: nat| k <= rrs.len() implies #[trigger] offset(rs, k + 1) == n + offset(
            rrs,
            k,
        ) by {
            lemma_offset_shift(xs.take(n), rrs, k);
        }
        assert(offset(rs, 0) == 0);
        assert(offset(rs, rs.len()) == n + offset(rrs, rrs.len()));
        assert forall|i: int| 0 <= i < rs.len() implies {
            let a = #[trigger] offset(rs, i as nat);
            let b = offset(rs, (i + 1) as nat);
            &&& a < b <= xs.len()
            &&& rs[i] == xs.subrange(a as int, b as int)
        } by {
            if i == 0 {
                assert(offset(rs, 1) == n + offset(rrs, 0));
                assert(xs.take(n) =~= xs.subrange(0, n));
            } else {
                let k = (i - 1) as nat;
                assert(offset(rs, k + 1) == n + offset(rrs, k));
                assert(offset(rs, (k + 1) + 1) == n + offset(rrs, k + 1));
                let a = offset(rrs, k);
                let b = offset(rrs, k + 1);
                assert(rrs[k as int] == rest.subrange(a as int, b as int));
                assert(rest.subrange(a as int, b as int) =~= xs.subrange(n + a, n + b));
                assert(rs[i] == rrs[i - 1]);
            }
        }
    }
}

/// Putting one run in front moves every offset by its length.
proof fn lemma_offset_shift(head: Seq<Event>, rest: Seq<Seq<Event>>, k: nat)
    requires
        k <= rest.len(),
    ensures
        offset(seq![head] + rest, k + 1) == head.len() + offset(rest, k),
    decreases k,
{
    let all = seq![head] + rest;
    if k == 0 {
        assert(offset(all, 1) == offset(all, 0) + all[0].len());
    } else {
        lemma_offset_shift(head, rest, (k - 1) as nat);
        assert(all[k as int] == rest[k - 1]);
    }
}

} // verus!
