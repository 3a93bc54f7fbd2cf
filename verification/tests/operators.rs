use transcript::grouping::Grouping;
use transcript::transcribe::{Iter, IteratorExt, Timing};

fn t(start: u32, end: u32, text: &str) -> Timing {
    Timing::new(start, end, text.to_string()).unwrap()
}

fn seq(events: &[(u32, u32, &str)]) -> Iter {
    Iter::new(events.iter().map(|&(s, e, x)| t(s, e, x)).collect()).unwrap()
}

fn spans(it: Iter) -> Vec<(u32, u32, String)> {
    it.into_vec().iter().map(|t| (t.start(), t.end(), t.text().to_string())).collect()
}

fn own(events: &[(u32, u32, &str)]) -> Vec<(u32, u32, String)> {
    events.iter().map(|&(s, e, x)| (s, e, x.to_string())).collect()
}

const TALK: [(u32, u32, &str); 9] = [
    (0, 100, " The"),
    (150, 250, " cat"),
    (600, 700, " sat."),
    (800, 900, " It"),
    (905, 1400, " purr"),
    (1400, 1500, "ed!"),
    (2500, 2600, " ."),
    (2600, 2700, " Why"),
    (9000, 9100, " not?"),
];

fn all_operators() -> Vec<Grouping> {
    vec![
        Grouping::MaxSilence(0),
        Grouping::MaxSilence(300),
        Grouping::MaxSilence(u128::MAX),
        Grouping::ByGap(0),
        Grouping::ByGap(200),
        Grouping::ByGap(1 << 40),
        Grouping::Sentences,
        Grouping::MinWordCount(0),
        Grouping::MinWordCount(1),
        Grouping::MinWordCount(3),
        Grouping::MinWordCount(usize::MAX),
        Grouping::Lasting(0),
        Grouping::Lasting(1000),
        Grouping::Lasting(u128::MAX),
        Grouping::Chunks(0),
        Grouping::Chunks(1),
        Grouping::Chunks(2),
        Grouping::Chunks(4),
        Grouping::Chunks(usize::MAX),
    ]
}

#[test]
fn continuations_are_joined_and_durations_cut() {
    let raw = seq(&[(0, 200, " Hello"), (200, 900, "world"), (900, 1000, " again.")]);
    assert_eq!(
        spans(raw.join_continuations()),
        own(&[(0, 200, " Helloworld"), (900, 1000, " again.")])
    );
    let long = seq(&[(0, 900, " Hello"), (900, 1000, "world"), (1000, 1500, " again.")]);
    assert_eq!(
        spans(long.join_continuations()),
        own(&[(0, 500, " Helloworld"), (1000, 1500, " again.")])
    );
}

#[test]
fn continuation_joining_at_the_edges() {
    assert_eq!(spans(seq(&[]).join_continuations()), own(&[]));
    // The first event begins a run whatever its text.
    assert_eq!(
        spans(seq(&[(10, 20, "lo"), (20, 30, "w"), (30, 40, "")]).join_continuations()),
        own(&[(10, 20, "low"), (30, 40, "")])
    );
    // A duration of exactly the limit stays; one more millisecond is cut.
    assert_eq!(
        spans(seq(&[(7, 507, " a"), (7, 508, " b")]).join_continuations()),
        own(&[(7, 507, " a"), (7, 507, " b")])
    );
    assert_eq!(
        spans(seq(&[(u32::MAX - 600, u32::MAX, " z")]).join_continuations()),
        own(&[(u32::MAX - 600, u32::MAX - 100, " z")])
    );
}

#[test]
fn boxed_leaves_the_sequence_as_it_is() {
    assert_eq!(spans(seq(&TALK).boxed()), own(&TALK));
}

#[test]
fn sentences_end_with_a_terminator() {
    let input = seq(&[(0, 100, " The cat"), (100, 200, " sat."), (200, 300, " It"), (300, 400, " purred!")]);
    assert_eq!(
        spans(input.sentences()),
        own(&[(0, 200, " The cat sat."), (200, 400, " It purred!")])
    );
}

#[test]
fn sentences_look_at_the_whole_run() {
    // A terminator that is alone in its event ends the run that it closes,
    // and does not end a run that it begins.
    assert_eq!(
        spans(seq(&[(0, 1, " Hello"), (1, 2, "."), (2, 3, " Bye")]).sentences()),
        own(&[(0, 2, " Hello."), (2, 3, " Bye")])
    );
    assert_eq!(
        spans(seq(&[(0, 1, "."), (1, 2, " Hello"), (2, 3, " you?"), (3, 4, "!")]).sentences()),
        own(&[(0, 3, ". Hello you?"), (3, 4, "!")])
    );
    // An empty text behind a sentence begins the next run.
    assert_eq!(
        spans(seq(&[(0, 1, "A."), (1, 2, ""), (2, 3, "b"), (3, 4, "")]).sentences()),
        own(&[(0, 1, "A."), (1, 4, "b")])
    );
}

#[test]
fn chunks_of_three_out_of_seven() {
    let input: Vec<(u32, u32, &str)> =
        vec![(0, 1, "a"), (1, 2, "b"), (2, 3, "c"), (3, 4, "d"), (4, 5, "e"), (5, 6, "f"), (6, 7, "g")];
    assert_eq!(
        spans(seq(&input).chunks(3)),
        own(&[(0, 3, "abc"), (3, 6, "def"), (6, 7, "g")])
    );
    assert_eq!(spans(seq(&input).chunks(7)), own(&[(0, 7, "abcdefg")]));
    assert_eq!(spans(seq(&input).chunks(8)), own(&[(0, 7, "abcdefg")]));
    assert_eq!(spans(seq(&input).chunks(0)), own(&input));
}

#[test]
fn a_gap_of_the_given_size_ends_the_run() {
    let input = seq(&[(0, 100, "a"), (150, 250, "b"), (600, 700, "c"), (800, 900, "d")]);
    assert_eq!(spans(input.by_gap(200)), own(&[(0, 250, "ab"), (600, 900, "cd")]));
    let exact = seq(&[(0, 100, "a"), (300, 400, "b"), (599, 600, "c")]);
    assert_eq!(spans(exact.by_gap(200)), own(&[(0, 100, "a"), (300, 600, "bc")]));
}

#[test]
fn events_that_overlap_have_no_gap() {
    let input = seq(&[(0, 500, "a"), (100, 200, "b"), (150, 900, "c"), (901, 902, "d")]);
    assert_eq!(spans(input.by_gap(1)), own(&[(0, 900, "abc"), (901, 902, "d")]));
    let input = seq(&[(0, 500, "a"), (100, 200, "b"), (150, 900, "c"), (901, 902, "d")]);
    assert_eq!(spans(input.max_silence(1)), own(&[(0, 900, "abc"), (901, 902, "d")]));
    let input = seq(&[(0, 500, "a"), (100, 200, "b")]);
    assert_eq!(spans(input.by_gap(0)), own(&[(0, 500, "a"), (100, 200, "b")]));
}

#[test]
fn silence_adds_up_inside_a_run() {
    let input = seq(&[(0, 100, "a"), (200, 300, "b"), (500, 600, "c"), (900, 1000, "d")]);
    assert_eq!(
        spans(input.max_silence(300)),
        own(&[(0, 300, "ab"), (500, 600, "c"), (900, 1000, "d")])
    );
    let input = seq(&[(0, 100, "a"), (200, 300, "b"), (500, 600, "c"), (900, 1000, "d")]);
    assert_eq!(
        spans(input.max_silence(301)),
        own(&[(0, 600, "abc"), (900, 1000, "d")])
    );
    let input = seq(&[(0, 100, "a"), (200, 300, "b"), (500, 600, "c"), (900, 1000, "d")]);
    assert_eq!(spans(input.max_silence(601)), own(&[(0, 1000, "abcd")]));
    // The gaps count, not the time that has passed.
    let input = seq(&[(0, 1000, "a"), (1010, 5000, "b"), (5010, 9000, "c"), (9010, 9020, "d")]);
    assert_eq!(spans(input.max_silence(25)), own(&[(0, 9000, "abc"), (9010, 9020, "d")]));
}

#[test]
fn durations_past_any_time_never_end_a_run() {
    let far = (1u128 << 32) + 5;
    assert_eq!(spans(seq(&TALK).lasting(far)).len(), 1);
    assert_eq!(spans(seq(&TALK).by_gap(far)).len(), 1);
    assert_eq!(spans(seq(&TALK).max_silence(far)).len(), 1);
    let ends = seq(&[(0, 0, "a"), (u32::MAX, u32::MAX, "b")]);
    assert_eq!(spans(ends.by_gap(u32::MAX as u128)).len(), 2);
    let ends = seq(&[(0, 0, "a"), (u32::MAX, u32::MAX, "b")]);
    assert_eq!(spans(ends.by_gap(u32::MAX as u128 + 1)).len(), 1);
}

#[test]
fn runs_last_as_long_as_asked() {
    let input = seq(&[(0, 100, "a"), (100, 400, "b"), (400, 500, "c"), (500, 2000, "d"), (2000, 2001, "e")]);
    assert_eq!(
        spans(input.lasting(400)),
        own(&[(0, 400, "ab"), (400, 2000, "cd"), (2000, 2001, "e")])
    );
    let input = seq(&[(0, 100, "a"), (100, 400, "b")]);
    assert_eq!(spans(input.lasting(401)), own(&[(0, 400, "ab")]));
}

#[test]
fn words_are_counted_in_the_whole_run() {
    let input = seq(&[(0, 1, " one"), (1, 2, " two"), (2, 3, " three"), (3, 4, " four"), (4, 5, " five")]);
    assert_eq!(
        spans(input.min_word_count(2)),
        own(&[(0, 2, " one two"), (2, 4, " three four"), (4, 5, " five")])
    );
    // Texts that meet without whitespace make one token.
    let input = seq(&[(0, 1, " sen"), (1, 2, "ten"), (2, 3, "ces are"), (3, 4, " split")]);
    assert_eq!(
        spans(input.min_word_count(2)),
        own(&[(0, 3, " sentences are"), (3, 4, " split")])
    );
    let input = seq(&[(0, 1, ""), (1, 2, "  "), (2, 3, "x"), (3, 4, "")]);
    assert_eq!(spans(input.min_word_count(1)), own(&[(0, 3, "  x"), (3, 4, "")]));
}

#[test]
fn every_operator_makes_nothing_of_nothing() {
    for op in all_operators() {
        assert_eq!(spans(seq(&[]).regroup(op)), own(&[]), "{:?}", op);
    }
}

#[test]
fn no_operator_makes_a_sequence_longer() {
    for op in all_operators() {
        let out = seq(&TALK).regroup(op);
        assert!(out.len() <= TALK.len(), "{:?}", op);
        assert!(out.len() >= 1, "{:?}", op);
    }
}

#[test]
fn every_operator_keeps_the_text() {
    let whole: String = TALK.iter().map(|e| e.2).collect();
    for op in all_operators() {
        let out: String = seq(&TALK).regroup(op).into_vec().iter().map(|t| t.text()).collect();
        assert_eq!(out, whole, "{:?}", op);
    }
    let joined: String =
        seq(&TALK).join_continuations().into_vec().iter().map(|t| t.text()).collect();
    assert_eq!(joined, whole);
}

#[test]
fn every_output_event_spans_its_run() {
    for op in all_operators() {
        let out = spans(seq(&TALK).regroup(op));
        let mut at = 0;
        for (start, end, text) in out {
            assert_eq!(start, TALK[at].0, "{:?}", op);
            let mut rest = text.as_str();
            let mut last = at;
            while !rest.is_empty() || (last == at && TALK[at].2.is_empty()) {
                rest = rest.strip_prefix(TALK[last].2).unwrap();
                last += 1;
            }
            assert_eq!(end, TALK[last - 1].1, "{:?}", op);
            at = last;
        }
        assert_eq!(at, TALK.len(), "{:?}", op);
    }
}

#[test]
fn every_operator_keeps_the_start_times_in_order() {
    for op in all_operators() {
        let out = spans(seq(&TALK).regroup(op));
        for pair in out.windows(2) {
            assert!(pair[0].0 <= pair[1].0, "{:?}", op);
        }
        for e in out {
            assert!(e.0 <= e.1, "{:?}", op);
        }
    }
}

#[test]
fn operators_that_change_nothing() {
    assert_eq!(spans(seq(&TALK).chunks(1)), own(&TALK));
    assert_eq!(spans(seq(&TALK).lasting(0)), own(&TALK));
    assert_eq!(spans(seq(&TALK).min_word_count(1)), own(&TALK));
    assert_eq!(spans(seq(&TALK).min_word_count(0)), own(&TALK));
    assert_eq!(spans(seq(&TALK).by_gap(0)), own(&TALK));
    assert_eq!(spans(seq(&TALK).max_silence(0)), own(&TALK));
}

#[test]
fn chunks_of_chunks_are_larger_chunks() {
    let many: Vec<(u32, u32, String)> =
        (0..37u32).map(|i| (i * 10, i * 10 + 5, format!(" w{}", i))).collect();
    for len in [0usize, 1, 8, 9, 10, 18, 27, 36, 37] {
        for k in [0usize, 1, 2, 3, 6, 40] {
            let part: Vec<(u32, u32, &str)> =
                many[..len].iter().map(|e| (e.0, e.1, e.2.as_str())).collect();
            let twice = spans(seq(&part).chunks(k).chunks(k));
            let once = spans(seq(&part).chunks(k * k));
            assert_eq!(twice, once, "{} events in chunks of {}", len, k);
        }
    }
}

#[test]
fn sentences_of_sentences_are_the_same_sentences() {
    let once = spans(seq(&TALK).sentences());
    let twice = spans(seq(&TALK).sentences().sentences());
    assert_eq!(once, twice);
    assert_eq!(
        once,
        own(&[
            (0, 700, " The cat sat."),
            (800, 1500, " It purred!"),
            (2500, 2600, " ."),
            (2600, 9100, " Why not?"),
        ])
    );
}

#[test]
fn the_named_operators_are_the_general_one() {
    assert_eq!(spans(seq(&TALK).sentences()), spans(seq(&TALK).regroup(Grouping::Sentences)));
    assert_eq!(spans(seq(&TALK).chunks(2)), spans(seq(&TALK).regroup(Grouping::Chunks(2))));
    assert_eq!(spans(seq(&TALK).by_gap(60)), spans(seq(&TALK).regroup(Grouping::ByGap(60))));
    assert_eq!(
        spans(seq(&TALK).max_silence(60)),
        spans(seq(&TALK).regroup(Grouping::MaxSilence(60)))
    );
    assert_eq!(spans(seq(&TALK).lasting(300)), spans(seq(&TALK).regroup(Grouping::Lasting(300))));
    assert_eq!(
        spans(seq(&TALK).min_word_count(2)),
        spans(seq(&TALK).regroup(Grouping::MinWordCount(2)))
    );
}

#[test]
fn subtitles_of_a_sequence() {
    assert_eq!(
        seq(&[(3_661_250, 3_662_000, " Hi.")]).write_srt(),
        "1\n01:01:01,250 --> 01:01:02,000\nHi.\n\n"
    );
    assert_eq!(
        seq(&[(0, 1000, " a "), (1000, 2500, "b")]).write_srt(),
        "1\n00:00:00,000 --> 00:00:01,000\na\n\n2\n00:00:01,000 --> 00:00:02,500\nb\n\n"
    );
    assert_eq!(seq(&[]).write_srt(), "");
    let eleven: Vec<(u32, u32, &str)> = (0..11).map(|i| (i, i, "x")).collect();
    assert!(seq(&eleven).write_srt().ends_with("\n\n11\n00:00:00,010 --> 00:00:00,010\nx\n\n"));
}

#[test]
fn a_sequence_for_people_to_read() {
    assert_eq!(
        seq(&[(0, 1000, " a "), (1000, 2500, "b")]).write_pretty(),
        "0:00.00 - 0:01.00 (1.00)\na\n\n0:01.00 - 0:02.50 (1.50)\nb\n\n"
    );
    assert_eq!(seq(&[]).write_pretty(), "");
}
