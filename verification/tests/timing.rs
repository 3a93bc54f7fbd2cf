use transcript::transcribe::{Iter, Timing};

fn t(start: u32, end: u32, text: &str) -> Timing {
    Timing::new(start, end, text.to_string()).unwrap()
}

#[test]
fn an_event_does_not_end_before_it_starts() {
    assert!(Timing::new(10, 9, "x".to_string()).is_none());
    assert!(Timing::new(10, 10, "x".to_string()).is_some());
    let e = t(100, 350, " Hi. ");
    assert_eq!(e.start(), 100);
    assert_eq!(e.end(), 350);
    assert_eq!(e.duration(), 250);
    assert_eq!(e.text(), " Hi. ");
    assert_eq!(e.content(), "Hi.");
}

#[test]
fn combine_spans_both_and_joins_the_texts() {
    let a = t(0, 100, " The");
    let b = t(150, 300, " cat");
    let c = a.combine(&b);
    assert_eq!((c.start(), c.end(), c.text()), (0, 300, " The cat"));
    assert_eq!((a.start(), a.end(), a.text()), (0, 100, " The"));
    let d = b.combine(&t(120, 200, "s"));
    assert_eq!((d.start(), d.end(), d.text()), (150, 200, " cats"));
}

#[test]
fn absorb_keeps_the_time_range() {
    let a = t(0, 100, " Hel");
    let b = t(150, 900, "lo");
    let c = a.absorb(&b);
    assert_eq!((c.start(), c.end(), c.text()), (0, 100, " Hello"));
    let early = b.absorb(&a);
    assert_eq!((early.start(), early.end(), early.text()), (150, 900, "lo Hel"));
}

#[test]
fn a_continuation_begins_without_whitespace() {
    assert!(t(0, 1, "world").is_continuation());
    assert!(t(0, 1, ".").is_continuation());
    assert!(!t(0, 1, " world").is_continuation());
    assert!(!t(0, 1, "\tworld").is_continuation());
    assert!(!t(0, 1, "\u{3000}world").is_continuation());
    assert!(!t(0, 1, "").is_continuation());
}

#[test]
fn a_clone_is_the_same_event() {
    let a = t(5, 6, " x");
    assert_eq!(a.clone(), a);
}

#[test]
fn an_event_for_people_to_read() {
    assert_eq!(t(0, 1500, " Hello there. ").to_string(), "0:00.00 - 0:01.50 (1.50)\nHello there.");
    assert_eq!(
        t(3_661_250, 3_662_000, " Hi.").to_string(),
        "61:01.25 - 61:02.00 (0.75)\nHi."
    );
    assert_eq!(t(61_000, 135_990, "").to_string(), "1:01.00 - 2:15.99 (74.99)\n");
}

#[test]
fn an_event_as_a_subtitle() {
    assert_eq!(
        t(3_661_250, 3_662_000, " Hi.").to_srt(1),
        "1\n01:01:01,250 --> 01:01:02,000\nHi.\n\n"
    );
    assert_eq!(t(0, 0, "  ").to_srt(12), "12\n00:00:00,000 --> 00:00:00,000\n\n\n");
}

#[test]
fn a_sequence_is_in_the_order_of_its_start_times() {
    assert!(Iter::new(vec![]).is_some());
    assert!(Iter::new(vec![t(0, 10, "a"), t(0, 5, "b"), t(3, 4, "c")]).is_some());
    assert!(Iter::new(vec![t(0, 10, "a"), t(5, 6, "b"), t(4, 9, "c")]).is_none());
    assert!(Iter::new(vec![t(1, 2, "a"), t(0, 9, "b")]).is_none());
    let it = Iter::new(vec![t(0, 10, "a"), t(20, 30, "b")]).unwrap();
    assert_eq!(it.len(), 2);
    assert_eq!(it.get(1).text(), "b");
    let back = it.into_vec();
    assert_eq!(back, vec![t(0, 10, "a"), t(20, 30, "b")]);
}
