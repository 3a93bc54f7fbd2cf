//! The one command: read events, join continuations, group, write.

use crate::cli::input::Input;
use crate::cli::output::{Format, Output};
use crate::event::{chronological, Event};
use crate::grouping::{join_continuations, Grouping};
use crate::render::{pretty_document, srt_document};
use crate::transcribe::{Iter, IteratorExt};
use vstd::prelude::*;

verus! {

/// The grouping operators that were asked for, each with its parameter.
/// Durations are in milliseconds.
#[derive(Debug, Clone, Copy)]
pub struct TranscriptionPipeline {
    max_silence: Option<u128>,
    sentences: bool,
    min_word_count: Option<usize>,
    by_gap: Option<u128>,
    lasting: Option<u128>,
    chunk_size: Option<usize>,
}

impl TranscriptionPipeline {
    /// The duration for `max_silence`, if it was asked for.
    pub closed spec fn spec_max_silence(&self) -> Option<u128> {
        self.max_silence
    }

    /// Whether `sentences` was asked for.
    pub closed spec fn spec_sentences(&self) -> bool {
        self.sentences
    }

    /// The number for `min_word_count`, if it was asked for.
    pub closed spec fn spec_min_word_count(&self) -> Option<usize> {
        self.min_word_count
    }

    /// The duration for `by_gap`, if it was asked for.
    pub closed spec fn spec_by_gap(&self) -> Option<u128> {
        self.by_gap
    }

    /// The duration for `lasting`, if it was asked for.
    pub closed spec fn spec_lasting(&self) -> Option<u128> {
        self.lasting
    }

    /// The number for `chunks`, if it was asked for.
    pub closed spec fn spec_chunk_size(&self) -> Option<usize> {
        self.chunk_size
    }

    /// What the pipeline makes of `xs`. The operators that were asked for
    /// are applied in one order, whatever the order in which they were
    /// asked for: `max_silence`, `by_gap`, `sentences`, `min_word_count`,
    /// `lasting`, `chunks`.
    pub open spec fn applied(&self, xs: Seq<Event>) -> Seq<Event> {
        let a = match self.spec_max_silence() {
            Some(d) => Grouping::MaxSilence(d).apply(xs),
            None => xs,
        };
        let b = match self.spec_by_gap() {
            Some(d) => Grouping::ByGap(d).apply(a),
            None => a,
        };
        let c = if self.spec_sentences() {
            Grouping::Sentences.apply(b)
        } else {
            b
        };
        let d_ = match self.spec_min_word_count() {
            Some(n) => Grouping::MinWordCount(n).apply(c),
            None => c,
        };
        let e = match self.spec_lasting() {
            Some(d) => Grouping::Lasting(d).apply(d_),
            None => d_,
        };
        match self.spec_chunk_size() {
            Some(k) => Grouping::Chunks(k).apply(e),
            None => e,
        }
    }

    /// A pipeline of the operators that are given.
    pub fn new(
        max_silence: Option<u128>,
        sentences: bool,
        min_word_count: Option<usize>,
        by_gap: Option<u128>,
        lasting: Option<u128>,
        chunk_size: Option<usize>,
    ) -> (r: TranscriptionPipeline)
        ensures
            r.spec_max_silence() == max_silence,
            r.spec_sentences() == sentences,
            r.spec_min_word_count() == min_word_count,
            r.spec_by_gap() == by_gap,
            r.spec_lasting() == lasting,
            r.spec_chunk_size() == chunk_size,
    {
        TranscriptionPipeline {
            max_silence,
            sentences,
            min_word_count,
            by_gap,
            lasting,
            chunk_size,
        }
    }

    /// Applies the operators that were asked for, in their one order.
    pub fn process_iter(&self, it: Iter) -> (out: Iter)
        ensures
            out@ == self.applied(it@),
            chronological(out@),
    {
        let mut it = it.boxed();
        if let Some(silence) = self.max_silence() {
            it = it.max_silence(silence);
        }
        if let Some(gap) = self.by_gap() {
            it = it.by_gap(gap);
        }
        if self.sentences() {
            it = it.sentences();
        }
        if let Some(min_word_count) = self.min_word_count() {
            it = it.min_word_count(min_word_count);
        }
        if let Some(window) = self.lasting() {
            it = it.lasting(window);
        }
        if let Some(chunk_count) = self.chunk_size() {
            it = it.chunks(chunk_count);
        }
        it
    }

    /// The duration for `max_silence`, if it was asked for.
    pub fn max_silence(&self) -> (r: Option<u128>)
        ensures
            r == self.spec_max_silence(),
    {
        self.max_silence
    }

    /// The number for `min_word_count`, if it was asked for.
    pub fn min_word_count(&self) -> (r: Option<usize>)
        ensures
            r == self.spec_min_word_count(),
    {
        self.min_word_count
    }

    /// The duration for `by_gap`, if it was asked for.
    pub fn by_gap(&self) -> (r: Option<u128>)
        ensures
            r == self.spec_by_gap(),
    {
        self.by_gap
    }

    /// The duration for `lasting`, if it was asked for.
    pub fn lasting(&self) -> (r: Option<u128>)
        ensures
            r == self.spec_lasting(),
    {
        self.lasting
    }

    /// The number for `chunks`, if it was asked for.
    pub fn chunk_size(&self) -> (r: Option<usize>)
        ensures
            r == self.spec_chunk_size(),
    {
        self.chunk_size
    }

    /// Whether `sentences` was asked for.
    pub fn sentences(&self) -> (r: bool)
        ensures
            r == self.spec_sentences(),
    {
        self.sentences
    }
}

/// What is to be written: text as it stands, or events that a serializer
/// is to write.
pub enum Emission {
    /// Events to be written as comma-separated values.
    Csv(Iter),
    /// Events to be written as one JSON array.
    Json(Iter),
    /// Text to be written as it is.
    Text(String),
}

/// The command that reshapes a transcript.
#[derive(Debug, Clone)]
pub struct Transform {
    input: Input,
    output: Output,
    pipeline: TranscriptionPipeline,
}

impl Transform {
    /// The input of the command.
    pub closed spec fn spec_input(&self) -> Input {
        self.input
    }

    /// The output of the command.
    pub closed spec fn spec_output(&self) -> Output {
        self.output
    }

    /// The pipeline of the command.
    pub closed spec fn spec_pipeline(&self) -> TranscriptionPipeline {
        self.pipeline
    }

    /// The command with the given input, output and pipeline.
    pub fn new(input: Input, output: Output, pipeline: TranscriptionPipeline) -> (r: Transform)
        ensures
            r.spec_input() == input,
            r.spec_output() == output,
            r.spec_pipeline() == pipeline,
    {
        Transform { input, output, pipeline }
    }

    /// The input of the command.
    pub fn input(&self) -> (r: &Input)
        ensures
            *r == self.spec_input(),
    {
        &self.input
    }

    /// The output of the command.
    pub fn output(&self) -> (r: &Output)
        ensures
            *r == self.spec_output(),
    {
        &self.output
    }

    /// The pipeline of the command.
    pub fn pipeline(&self) -> (r: &TranscriptionPipeline)
        ensures
            *r == self.spec_pipeline(),
    {
        &self.pipeline
    }

    /// The events to write, made of the events that were read:
    /// continuations are joined, then the pipeline is applied.
    pub fn read_data(&self, raw: Iter) -> (out: Iter)
        ensures
            out@ == self.spec_pipeline().applied(join_continuations(raw@)),
            chronological(out@),
    {
        let timings = raw.join_continuations();
        self.pipeline.process_iter(timings)
    }

    /// What is to be written for `timings` in the format of the output:
    /// the text itself for the two text formats, the events for the two
    /// formats that a serializer writes.
    pub fn process_to_output(&self, timings: Iter) -> (r: Emission)
        ensures
            match self.spec_output().spec_format() {
                Format::Csv => r matches Emission::Csv(it) && it@ == timings@,
                Format::Json => r matches Emission::Json(it) && it@ == timings@,
                Format::Pretty => r matches Emission::Text(s) && s@ == pretty_document(timings@),
                Format::Srt => r matches Emission::Text(s) && s@ == srt_document(timings@),
            },
    {
        match self.output.format() {
            Format::Csv => Emission::Csv(timings),
            Format::Json => Emission::Json(timings),
            Format::Pretty => Emission::Text(timings.write_pretty()),
            Format::Srt => Emission::Text(timings.write_srt()),
        }
    }
}

} // verus!
