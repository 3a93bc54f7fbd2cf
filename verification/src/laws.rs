//! What holds of every grouping operator and of continuation joining,
//! whatever the input.

use crate::event::{
    chronological, fused, joined_text, lemma_chronological_subrange, lemma_fused_wf,
    lemma_joined_text_concat, lemma_joined_text_one, starts_ascend, utterance, Event,
    MAX_UTTERANCE_DURATION,
};
use crate::grouping::{
    continuation_rule, first_run_len, join_continuations, lemma_join_unfold,
    lemma_run_len_maximal, lemma_runs_empty, lemma_runs_partition, lemma_runs_unfold, offset,
    regroup, runs, Grouping, Rule,
};
use vstd::prelude::*;

verus! {

/// The first event of input that output event `i` covers.
pub open spec fn first_covered(op: Grouping, xs: Seq<Event>, i: int) -> int {
    offset(op.runs(xs), i as nat) as int
}

/// The last event of input that output event `i` covers.
pub open spec fn last_covered(op: Grouping, xs: Seq<Event>, i: int) -> int {
    offset(op.runs(xs), (i + 1) as nat) - 1
}

/// An operator never makes a sequence longer, and makes of a sequence that
/// is not empty one that is not empty.
pub proof fn law_length_monotone(op: Grouping, xs: Seq<Event>)
    ensures
        op.apply(xs).len() <= xs.len(),
        xs.len() > 0 ==> op.apply(xs).len() > 0,
        op.apply(xs).len() == op.runs(xs).len(),
{
    lemma_runs_partition(xs, op.rule());
}

/// The texts of the output, one after the other, are the texts of the
/// input, one after the other: no text is lost, added or moved.
pub proof fn law_coverage(op: Grouping, xs: Seq<Event>)
    ensures
        joined_text(op.apply(xs)) == joined_text(xs),
{
    lemma_regroup_keeps_text(xs, op.rule());
}

/// Output event `i` covers the input events from `first_covered` to
/// `last_covered`: these are its run, it starts where the first of them
/// starts and ends where the last of them ends. The runs follow one
/// another without a gap, from the first event of input to the last.
pub proof fn law_time_envelope(op: Grouping, xs: Seq<Event>, i: int)
    requires
        0 <= i < op.apply(xs).len(),
    ensures
        ({
            let a = first_covered(op, xs, i);
            let b = last_covered(op, xs, i);
            &&& 0 <= a <= b < xs.len()
            &&& op.runs(xs)[i] == xs.subrange(a, b + 1)
            &&& op.apply(xs)[i] == fused(xs.subrange(a, b + 1))
            &&& op.apply(xs)[i].start == xs[a].start
            &&& op.apply(xs)[i].end == xs[b].end
            &&& i == 0 ==> a == 0
            &&& i > 0 ==> a == last_covered(op, xs, i - 1) + 1
            &&& i == op.apply(xs).len() - 1 ==> b == xs.len() - 1
        }),
{
    let rs = op.runs(xs);
    lemma_runs_partition(xs, op.rule());
    assert(offset(rs, i as nat) < offset(rs, (i + 1) as nat));
}

/// A run is as long as its rule lets it be: the rule took every event of
/// the run behind the first, and the run ends with the input or where the
/// rule refuses the event to come.
pub proof fn law_runs_are_maximal(op: Grouping, xs: Seq<Event>, i: int)
    requires
        0 <= i < op.apply(xs).len(),
    ensures
        ({
            let a = first_covered(op, xs, i);
            let b = last_covered(op, xs, i);
            &&& forall|k: int| a < k <= b ==> op.continues(#[trigger] xs.subrange(a, k), xs[k])
            &&& b == xs.len() - 1 || !op.continues(xs.subrange(a, b + 1), xs[b + 1])
        }),
{
    lemma_runs_are_maximal(xs, op.rule(), i);
}

/// Where the start times of the input never go back, those of the output
/// never go back.
pub proof fn law_order_preserved(op: Grouping, xs: Seq<Event>)
    requires
        starts_ascend(xs),
    ensures
        starts_ascend(op.apply(xs)),
{
    let out = op.apply(xs);
    let rs = op.runs(xs);
    assert forall|i: int, j: int| 0 <= i <= j < out.len() implies out[i].start
        <= out[j].start by {
        law_time_envelope(op, xs, i);
        law_time_envelope(op, xs, j);
        lemma_offsets_ascend(xs, op.rule(), i, j);
    }
}

/// Where no event of the input ends before it starts and the start times
/// never go back, the same holds of the output: what one operator made,
/// any operator takes.
pub proof fn law_valid_stays_valid(op: Grouping, xs: Seq<Event>)
    requires
        chronological(xs),
    ensures
        chronological(op.apply(xs)),
{
    let out = op.apply(xs);
    law_order_preserved(op, xs);
    assert forall|i: int| 0 <= i < out.len() implies (#[trigger] out[i]).wf() by {
        law_time_envelope(op, xs, i);
        let a = first_covered(op, xs, i);
        let b = last_covered(op, xs, i);
        lemma_chronological_subrange(xs, a, b + 1);
        lemma_fused_wf(xs.subrange(a, b + 1));
    }
}

/// An operator makes nothing of nothing.
pub proof fn law_identity_on_empty(op: Grouping)
    ensures
        op.apply(Seq::<Event>::empty()) == Seq::<Event>::empty(),
{
    lemma_runs_empty(op.rule());
}

/// Utterance `i` of continuation joining covers a fragment and the
/// continuations behind it, and nothing else: it starts with the fragment,
/// ends with it or, where the fragment lasts longer than
/// `MAX_UTTERANCE_DURATION`, that long after its start, and its text is
/// that of the fragment with the texts of the continuations behind it.
pub proof fn law_normalizer_envelope(xs: Seq<Event>, i: int)
    requires
        0 <= i < join_continuations(xs).len(),
    ensures
        ({
            let rs = runs(xs, continuation_rule());
            let a = offset(rs, i as nat) as int;
            let b = offset(rs, (i + 1) as nat) - 1;
            let out = join_continuations(xs)[i];
            &&& 0 <= a <= b < xs.len()
            &&& out.start == xs[a].start
            &&& out.end == if xs[a].duration() > MAX_UTTERANCE_DURATION {
                xs[a].start + MAX_UTTERANCE_DURATION
            } else {
                xs[a].end as int
            }
            &&& out.text == xs[a].text + joined_text(xs.subrange(a + 1, b + 1))
            &&& forall|k: int| a < k <= b ==> (#[trigger] xs[k]).is_continuation()
            &&& b == xs.len() - 1 || !xs[b + 1].is_continuation()
            &&& i == 0 ==> a == 0
            &&& i == join_continuations(xs).len() - 1 ==> b == xs.len() - 1
        }),
{
    let rule = continuation_rule();
    let rs = runs(xs, rule);
    lemma_runs_partition(xs, rule);
    let a = offset(rs, i as nat) as int;
    let b = offset(rs, (i + 1) as nat) - 1;
    assert(offset(rs, i as nat) < offset(rs, (i + 1) as nat));
    let run = xs.subrange(a, b + 1);
    assert(join_continuations(xs)[i] == utterance(run));
    assert(run =~= seq![xs[a]] + xs.subrange(a + 1, b + 1));
    lemma_joined_text_concat(seq![xs[a]], xs.subrange(a + 1, b + 1));
    lemma_joined_text_one(xs[a]);
    lemma_runs_are_maximal(xs, rule, i);
    assert forall|k: int| a < k <= b implies (#[trigger] xs[k]).is_continuation() by {
        assert(rule(xs.subrange(a, k), xs[k]));
    }
}

/// Continuation joining never makes a sequence longer, keeps all the text,
/// keeps the start times in order, and makes of a sequence in which no
/// event ends before it starts one of the same kind.
pub proof fn law_normalizer_keeps(xs: Seq<Event>)
    ensures
        join_continuations(xs).len() <= xs.len(),
        joined_text(join_continuations(xs)) == joined_text(xs),
        starts_ascend(xs) ==> starts_ascend(join_continuations(xs)),
        chronological(xs) ==> chronological(join_continuations(xs)),
{
    let rule = continuation_rule();
    lemma_runs_partition(xs, rule);
    lemma_join_keeps_text(xs);
    let out = join_continuations(xs);
    if starts_ascend(xs) {
        assert forall|i: int, j: int| 0 <= i <= j < out.len() implies out[i].start
            <= out[j].start by {
            law_normalizer_envelope(xs, i);
            law_normalizer_envelope(xs, j);
            lemma_offsets_ascend(xs, rule, i, j);
        }
    }
    if chronological(xs) {
        assert forall|i: int| 0 <= i < out.len() implies (#[trigger] out[i]).wf() by {
            law_normalizer_envelope(xs, i);
            let rs = runs(xs, rule);
            assert(xs[offset(rs, i as nat) as int].wf());
        }
    }
}

/// Fusing the runs of a sequence keeps its text.
pub proof fn lemma_regroup_keeps_text(xs: Seq<Event>, rule: Rule)
    ensures
        joined_text(regroup(xs, rule)) == joined_text(xs),
    decreases xs.len(),
{
    if xs.len() == 0 {
        lemma_runs_empty(rule);
    } else {
        lemma_runs_unfold(xs, rule);
        let n = first_run_len(xs, rule) as int;
        let head = fused(xs.take(n));
        let rest = xs.skip(n);
        lemma_regroup_keeps_text(rest, rule);
        lemma_joined_text_concat(seq![head], regroup(rest, rule));
        lemma_joined_text_one(head);
        lemma_joined_text_concat(xs.take(n), rest);
        assert(xs.take(n) + rest =~= xs);
    }
}

/// Joining continuations keeps the text of a sequence.
proof fn lemma_join_keeps_text(xs: Seq<Event>)
    ensures
        joined_text(join_continuations(xs)) == joined_text(xs),
    decreases xs.len(),
{
    if xs.len() == 0 {
        lemma_runs_empty(continuation_rule());
    } else {
        lemma_join_unfold(xs);
        let n = first_run_len(xs, continuation_rule()) as int;
        let head = utterance(xs.take(n));
        let rest = xs.skip(n);
        lemma_join_keeps_text(rest);
        lemma_joined_text_concat(seq![head], join_continuations(rest));
        lemma_joined_text_one(head);
        lemma_joined_text_concat(xs.take(n), rest);
        assert(xs.take(n) + rest =~= xs);
    }
}

/// A later run begins no earlier in the input than an earlier run.
pub proof fn lemma_offsets_ascend(xs: Seq<Event>, rule: Rule, i: int, j: int)
    requires
        0 <= i <= j < runs(xs, rule).len(),
    ensures
        offset(runs(xs, rule), i as nat) <= offset(runs(xs, rule), j as nat),
    decreases j - i,
{
    if i < j {
        lemma_offsets_ascend(xs, rule, i, j - 1);
        lemma_runs_partition(xs, rule);
        assert(offset(runs(xs, rule), (j - 1) as nat) < offset(runs(xs, rule), j as nat));
    }
}

/// Run `i` of `xs` under `rule` is as long as the rule lets it be.
pub proof fn lemma_runs_are_maximal(xs: Seq<Event>, rule: Rule, i: int)
    requires
        0 <= i < runs(xs, rule).len(),
    ensures
        ({
            let a = offset(runs(xs, rule), i as nat) as int;
            let b = offset(runs(xs, rule), (i + 1) as nat) - 1;
            &&& 0 <= a <= b < xs.len()
            &&& forall|k: int| a < k <= b ==> rule(#[trigger] xs.subrange(a, k), xs[k])
            &&& b == xs.len() - 1 || !rule(xs.subrange(a, b + 1), xs[b + 1])
        }),
    decreases i,
{
    let rs = runs(xs, rule);
    lemma_runs_partition(xs, rule);
    assert(xs.len() > 0);
    lemma_runs_unfold(xs, rule);
    let n = first_run_len(xs, rule) as int;
    let rest = xs.skip(n);
    let rrs = runs(rest, rule);
    if i == 0 {
        assert(offset(rs, 0) == 0);
        assert(offset(rs, 1) == offset(rs, 0) + rs[0].len());
        lemma_run_len_maximal(xs, rule, 1);
        assert forall|k: int| 0 < k <= n - 1 implies rule(#[trigger] xs.subrange(0, k), xs[k]) by {
            assert(xs.take(k) =~= xs.subrange(0, k));
        }
        assert(xs.take(n) =~= xs.subrange(0, n));
    } else {
        lemma_runs_are_maximal(rest, rule, i - 1);
        lemma_runs_partition(rest, rule);
        lemma_offset_behind_first(xs, rule, (i - 1) as nat);
        lemma_offset_behind_first(xs, rule, i as nat);
        let a = offset(rrs, (i - 1) as nat) as int;
        let b = offset(rrs, i as nat) - 1;
        assert forall|k: int| n + a < k <= n + b implies rule(
            #[trigger] xs.subrange(n + a, k),
            xs[k],
        ) by {
            assert(rest.subrange(a, k - n) =~= xs.subrange(n + a, k));
            assert(rest[k - n] == xs[k]);
            assert(rule(rest.subrange(a, k - n), rest[k - n]));
        }
        if b != rest.len() - 1 {
            assert(rest.subrange(a, b + 1) =~= xs.subrange(n + a, n + b + 1));
            assert(rest[b + 1] == xs[n + b + 1]);
        }
    }
}

/// The runs behind the first begin where they begin in the rest of the
/// input, moved by the length of the first run.
pub proof fn lemma_offset_behind_first(xs: Seq<Event>, rule: Rule, k: nat)
    requires
        xs.len() > 0,
        k <= runs(xs.skip(first_run_len(xs, rule) as int), rule).len(),
    ensures
        offset(runs(xs, rule), k + 1) == first_run_len(xs, rule) + offset(
            runs(xs.skip(first_run_len(xs, rule) as int), rule),
            k,
        ),
    decreases k,
{
    lemma_runs_unfold(xs, rule);
    let rs = runs(xs, rule);
    let n = first_run_len(xs, rule) as int;
    let rrs = runs(xs.skip(n), rule);
    if k == 0 {
        assert(offset(rs, 1) == offset(rs, 0) + rs[0].len());
    } else {
        lemma_offset_behind_first(xs, rule, (k - 1) as nat);
        assert(rs[k as int] == rrs[k - 1]);
    }
}

} // verus!
