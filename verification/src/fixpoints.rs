//! Operators that leave a sequence as it is, and operators applied twice.

use crate::event::{fused, lemma_joined_text_one, Event};
use crate::grouping::{
    first_run_len, lemma_runs_empty, lemma_runs_partition, lemma_runs_unfold, offset, regroup,
    run_len, Grouping, Rule,
};
use crate::laws::{
    law_length_monotone, law_runs_are_maximal, law_time_envelope, lemma_offsets_ascend,
    lemma_regroup_keeps_text,
};
use crate::text::{ends_sentence, word_count};
use vstd::prelude::*;

verus! {

/// Where a rule lets no event take the one behind it, every run is one
/// event and the sequence stays as it is.
pub proof fn lemma_runs_of_one(xs: Seq<Event>, rule: Rule)
    requires
        forall|i: int| 0 <= i < xs.len() - 1 ==> !rule(seq![#[trigger] xs[i]], xs[i + 1]),
    ensures
        regroup(xs, rule) == xs,
    decreases xs.len(),
{
    if xs.len() == 0 {
        lemma_runs_empty(rule);
        assert(xs =~= Seq::<Event>::empty());
    } else {
        assert(xs.take(1) =~= seq![xs[0]]);
        assert(first_run_len(xs, rule) == 1);
        lemma_runs_unfold(xs, rule);
        lemma_joined_text_one(xs[0]);
        let rest = xs.skip(1);
        assert forall|i: int| 0 <= i < rest.len() - 1 implies !rule(
            seq![#[trigger] rest[i]],
            rest[i + 1],
        ) by {
            assert(rest[i] == xs[i + 1]);
            assert(rest[i + 1] == xs[i + 2]);
        }
        lemma_runs_of_one(rest, rule);
        assert(seq![xs[0]] + rest =~= xs);
    }
}

/// Runs of one event are the events themselves.
pub proof fn law_chunks_of_one(xs: Seq<Event>)
    ensures
        Grouping::Chunks(1).apply(xs) == xs,
{
    lemma_runs_of_one(xs, Grouping::Chunks(1).rule());
}

/// No event lasts less than nothing, so none is fused.
pub proof fn law_lasting_nothing(xs: Seq<Event>)
    ensures
        Grouping::Lasting(0).apply(xs) == xs,
{
    lemma_runs_of_one(xs, Grouping::Lasting(0).rule());
}

/// Where every event holds a token, asking for one token fuses none.
pub proof fn law_one_word_each(xs: Seq<Event>)
    requires
        forall|i: int| 0 <= i < xs.len() ==> word_count(#[trigger] xs[i].text) >= 1,
    ensures
        Grouping::MinWordCount(1).apply(xs) == xs,
{
    let rule = Grouping::MinWordCount(1).rule();
    assert forall|i: int| 0 <= i < xs.len() - 1 implies !rule(
        seq![#[trigger] xs[i]],
        xs[i + 1],
    ) by {
        lemma_joined_text_one(xs[i]);
        assert(word_count(xs[i].text) >= 1);
    }
    lemma_runs_of_one(xs, rule);
}

/// Every event that `sentences` makes, but for the last, ends a sentence.
pub proof fn law_sentences_end(xs: Seq<Event>, i: int)
    requires
        0 <= i < Grouping::Sentences.apply(xs).len() - 1,
    ensures
        ends_sentence(Grouping::Sentences.apply(xs)[i].text),
{
    let op = Grouping::Sentences;
    let out = op.apply(xs);
    law_length_monotone(op, xs);
    law_time_envelope(op, xs, i);
    law_runs_are_maximal(op, xs, i);
    lemma_runs_partition(xs, op.rule());
    lemma_offsets_ascend(xs, op.rule(), i + 1, out.len() - 1);
    let rs = op.runs(xs);
    assert(offset(rs, (out.len() - 1) as nat) < offset(rs, ((out.len() - 1) + 1) as nat));
}

/// What `sentences` has made, `sentences` leaves as it is.
pub proof fn law_sentences_idempotent(xs: Seq<Event>)
    ensures
        Grouping::Sentences.apply(Grouping::Sentences.apply(xs)) == Grouping::Sentences.apply(xs),
{
    let op = Grouping::Sentences;
    let rule = op.rule();
    let ys = op.apply(xs);
    assert forall|i: int| 0 <= i < ys.len() - 1 implies !rule(
        seq![#[trigger] ys[i]],
        ys[i + 1],
    ) by {
        law_sentences_end(xs, i);
        lemma_joined_text_one(ys[i]);
    }
    lemma_runs_of_one(ys, rule);
}

/// The first run of `chunks` takes as many events as it was asked for, or
/// all that there are.
proof fn lemma_chunk_len(xs: Seq<Event>, k: usize, n: nat)
    requires
        1 <= n <= xs.len(),
        n <= k,
    ensures
        run_len(xs, Grouping::Chunks(k).rule(), n) == if k <= xs.len() {
            k as nat
        } else {
            xs.len()
        },
    decreases xs.len() - n,
{
    let rule = Grouping::Chunks(k).rule();
    if n < xs.len() && n < k {
        assert(rule(xs.take(n as int), xs[n as int]));
        lemma_chunk_len(xs, k, n + 1);
    } else if n < xs.len() {
        assert(!rule(xs.take(n as int), xs[n as int]));
    }
}

/// A sequence no longer than a chunk becomes one event.
proof fn lemma_one_chunk(xs: Seq<Event>, k: usize)
    requires
        1 <= xs.len() <= k,
    ensures
        Grouping::Chunks(k).apply(xs) == seq![fused(xs)],
{
    let rule = Grouping::Chunks(k).rule();
    lemma_chunk_len(xs, k, 1);
    lemma_runs_unfold(xs, rule);
    lemma_runs_empty(rule);
    assert(xs.take(xs.len() as int) =~= xs);
    assert(xs.skip(xs.len() as int) =~= Seq::<Event>::empty());
    assert(seq![fused(xs)] + Seq::<Event>::empty() =~= seq![fused(xs)]);
}

/// Where the front part holds a whole number of chunks, chunking the
/// sequence is chunking the front part and the rest apart.
proof fn lemma_chunks_split(front: Seq<Event>, rest: Seq<Event>, k: usize, q: nat)
    requires
        k >= 1,
        front.len() == q * k,
    ensures
        Grouping::Chunks(k).apply(front + rest) == Grouping::Chunks(k).apply(front)
            + Grouping::Chunks(k).apply(rest),
        Grouping::Chunks(k).apply(front).len() == q,
    decreases q,
{
    let op = Grouping::Chunks(k);
    let rule = op.rule();
    let all = front + rest;
    if q == 0 {
        assert(q * k == 0) by (nonlinear_arith)
            requires
                q == 0,
        ;
        assert(front =~= Seq::<Event>::empty());
        assert(all =~= rest);
        lemma_runs_empty(rule);
        assert(op.apply(front) + op.apply(rest) =~= op.apply(rest));
    } else {
        assert(q * k == (q - 1) * k + k) by (nonlinear_arith);
        assert((q - 1) * k >= 0) by (nonlinear_arith)
            requires
                q >= 1,
                k >= 1,
        ;
        lemma_chunk_len(all, k, 1);
        lemma_chunk_len(front, k, 1);
        lemma_runs_unfold(all, rule);
        lemma_runs_unfold(front, rule);
        assert(all.take(k as int) =~= front.take(k as int));
        assert(all.skip(k as int) =~= front.skip(k as int) + rest);
        lemma_chunks_split(front.skip(k as int), rest, k, (q - 1) as nat);
        assert(op.apply(all) =~= op.apply(front) + op.apply(rest));
    }
}

/// `chunks` makes no more events than the input holds chunks, the last
/// chunk counted whole.
proof fn lemma_chunks_count(xs: Seq<Event>, k: usize)
    requires
        k >= 1,
    ensures
        xs.len() > 0 ==> (Grouping::Chunks(k).apply(xs).len() - 1) * k < xs.len(),
        xs.len() > 0 ==> Grouping::Chunks(k).apply(xs).len() >= 1,
    decreases xs.len(),
{
    let op = Grouping::Chunks(k);
    let rule = op.rule();
    if xs.len() > 0 {
        lemma_chunk_len(xs, k, 1);
        lemma_runs_unfold(xs, rule);
        let n = first_run_len(xs, rule) as int;
        let rest = xs.skip(n);
        lemma_chunks_count(rest, k);
        let c = op.apply(xs).len() as int;
        let r = op.apply(rest).len() as int;
        assert(c == 1 + r);
        if rest.len() == 0 {
            lemma_runs_empty(rule);
            assert(rest =~= Seq::<Event>::empty());
            assert((c - 1) * k == 0) by (nonlinear_arith)
                requires
                    c == 1,
            ;
        } else {
            assert(n == k);
            assert((c - 1) * k == (r - 1) * k + k) by (nonlinear_arith)
                requires
                    c == 1 + r,
            ;
        }
    }
}

/// Fusing what an operator made of a sequence is fusing the sequence.
pub proof fn lemma_fused_regroup(xs: Seq<Event>, rule: Rule)
    requires
        xs.len() > 0,
    ensures
        regroup(xs, rule).len() > 0,
        fused(regroup(xs, rule)) == fused(xs),
    decreases xs.len(),
{
    lemma_runs_partition(xs, rule);
    lemma_runs_unfold(xs, rule);
    lemma_regroup_keeps_text(xs, rule);
    let n = first_run_len(xs, rule) as int;
    let rest = xs.skip(n);
    let out = regroup(xs, rule);
    assert(out[0] == fused(xs.take(n)));
    if rest.len() == 0 {
        lemma_runs_empty(rule);
        assert(rest =~= Seq::<Event>::empty());
        assert(xs.take(n) =~= xs);
        assert(out =~= seq![fused(xs)]);
    } else {
        lemma_fused_regroup(rest, rule);
        let tail = regroup(rest, rule);
        assert(out.last() == tail.last());
        assert(rest.last() == xs.last());
    }
    assert(fused(out) =~= fused(xs));
}

/// Chunking by `k` what was chunked by `k` is chunking by `k` times `k`.
pub proof fn law_chunks_twice(xs: Seq<Event>, k: usize)
    requires
        k * k <= usize::MAX,
    ensures
        Grouping::Chunks(k).apply(Grouping::Chunks(k).apply(xs)) == Grouping::Chunks(
            (k * k) as usize,
        ).apply(xs),
    decreases xs.len(),
{
    let op = Grouping::Chunks(k);
    let big = Grouping::Chunks((k * k) as usize);
    let kk = (k * k) as usize;
    if k == 0 {
        lemma_runs_of_one(xs, op.rule());
        lemma_runs_of_one(xs, big.rule());
    } else if xs.len() == 0 {
        lemma_runs_empty(op.rule());
        lemma_runs_empty(big.rule());
    } else if xs.len() < kk {
        lemma_one_chunk(xs, kk);
        lemma_chunks_count(xs, k);
        let once = op.apply(xs);
        assert(once.len() <= k) by (nonlinear_arith)
            requires
                (once.len() - 1) * k < xs.len(),
                xs.len() < k * k,
                k >= 1,
        ;
        lemma_one_chunk(once, k);
        lemma_fused_regroup(xs, op.rule());
    } else {
        assert(kk >= 1) by (nonlinear_arith)
            requires
                kk == k * k,
                k >= 1,
        ;
        let front = xs.take(kk as int);
        let rest = xs.skip(kk as int);
        assert(front + rest =~= xs);
        // The outer chunking takes the front part as its first run.
        lemma_chunk_len(xs, kk, 1);
        lemma_runs_unfold(xs, big.rule());
        // The inner chunking cuts at the same place.
        lemma_chunks_split(front, rest, k, k as nat);
        let once_front = op.apply(front);
        let once_rest = op.apply(rest);
        assert(once_front.len() == 1 * k) by (nonlinear_arith)
            requires
                once_front.len() == k,
        ;
        lemma_chunks_split(once_front, once_rest, k, 1);
        lemma_one_chunk(once_front, k);
        lemma_fused_regroup(front, op.rule());
        law_chunks_twice(rest, k);
    }
}

} // verus!
