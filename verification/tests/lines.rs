use line_tally::lines::count_lines;
use line_tally::lines::Fed;
use line_tally::lines::LineCounter;

#[test]
fn empty_content_has_no_lines() {
    assert_eq!(count_lines(b""), Some(0));
}

#[test]
fn terminated_lines_are_counted_once_each() {
    assert_eq!(count_lines(b"a\n"), Some(1));
    assert_eq!(count_lines(b"a\nb\n"), Some(2));
    assert_eq!(count_lines(b"\n\n\n"), Some(3));
}

#[test]
fn text_behind_the_last_terminator_is_a_line() {
    assert_eq!(count_lines(b"a"), Some(1));
    assert_eq!(count_lines(b"a\nb"), Some(2));
    assert_eq!(count_lines(b"\nb"), Some(2));
}

#[test]
fn carriage_returns_end_no_line() {
    assert_eq!(count_lines(b"a\r\nb\r\n"), Some(2));
    assert_eq!(count_lines(b"a\rb"), Some(1));
}

#[test]
fn text_beyond_ascii_is_counted() {
    assert_eq!(count_lines("grüße\n日本語\n🦀".as_bytes()), Some(3));
    assert_eq!(count_lines("\u{feff}first\nsecond\n".as_bytes()), Some(2));
    assert_eq!(count_lines("\u{7f}\u{80}\u{7ff}\u{800}\u{ffff}\u{10000}\u{10ffff}".as_bytes()), Some(1));
    assert_eq!(count_lines("\u{d7ff}\n\u{e000}\n".as_bytes()), Some(2));
}

#[test]
fn content_that_is_no_text_has_no_count() {
    assert_eq!(count_lines(b"ok\n\xff\xfe\n"), None);
    assert_eq!(count_lines(&[0xff, 0xfe, 10, 0x80, 10, 0xc3]), None);
    assert_eq!(count_lines(b"\x80"), None);
    assert_eq!(count_lines(b"a\n\xc3"), None);
    assert_eq!(count_lines(b"a\xc3\nb"), None);
    assert_eq!(count_lines(b"\xf8\x88\x80\x80\x80"), None);
}

#[test]
fn overlong_and_surrogate_forms_are_no_text() {
    assert_eq!(count_lines(b"\xc0\x8a"), None);
    assert_eq!(count_lines(b"\xc1\xbf"), None);
    assert_eq!(count_lines(b"\xe0\x80\x8a"), None);
    assert_eq!(count_lines(b"\xe0\x9f\xbf"), None);
    assert_eq!(count_lines(b"\xf0\x80\x80\x8a"), None);
    assert_eq!(count_lines(b"\xf0\x8f\xbf\xbf"), None);
    assert_eq!(count_lines(b"\xed\xa0\x80"), None);
    assert_eq!(count_lines(b"\xed\xbf\xbf"), None);
    assert_eq!(count_lines(b"\xf4\x90\x80\x80"), None);
    assert_eq!(count_lines(b"\xf5\x80\x80\x80"), None);
}

#[test]
fn count_agrees_with_the_standard_reading_of_text() {
    let samples: [&[u8]; 12] = [
        b"",
        b"plain\n",
        "caf\u{e9}\n".as_bytes(),
        b"\xe2\x82\xac",
        b"\xe2\x82",
        b"\xe2\x28\xa1",
        b"\xf0\x9f\xa6\x80\n",
        b"\xf0\x9f\xa6",
        b"\xc3\x28",
        b"\xa0\xa1",
        b"\xef\xbf\xbd\n\n",
        b"\xf4\x8f\xbf\xbf",
    ];
    for sample in samples {
        let expected = std::str::from_utf8(sample).ok().map(|text| text.lines().count());
        assert_eq!(count_lines(sample), expected);
    }
}

#[test]
fn fresh_counter_has_no_lines() {
    assert_eq!(LineCounter::new().finish(), Some(0));
}

#[test]
fn chunks_count_as_the_whole() {
    let whole: &[u8] = "one\ntwö\nthree\n\n🦀five".as_bytes();
    for cut in 0..=whole.len() {
        for second in cut..=whole.len() {
            let mut counter = LineCounter::new();
            assert_eq!(counter.feed(&whole[..cut]), Fed::Taken);
            assert_eq!(counter.feed(&whole[cut..second]), Fed::Taken);
            assert_eq!(counter.feed(&whole[second..]), Fed::Taken);
            assert_eq!(counter.finish(), count_lines(whole));
        }
    }
    assert_eq!(count_lines(whole), Some(5));
}

#[test]
fn empty_chunk_changes_nothing() {
    let mut counter = LineCounter::new();
    assert_eq!(counter.feed(b"open"), Fed::Taken);
    assert_eq!(counter.feed(b""), Fed::Taken);
    assert_eq!(counter.finish(), Some(1));
    assert_eq!(counter.feed(b" still\n"), Fed::Taken);
    assert_eq!(counter.feed(b""), Fed::Taken);
    assert_eq!(counter.finish(), Some(1));
}

#[test]
fn line_split_over_chunks_is_one_line() {
    let mut counter = LineCounter::new();
    assert_eq!(counter.feed(b"fn ma"), Fed::Taken);
    assert_eq!(counter.finish(), Some(1));
    assert_eq!(counter.feed(b"in() {}"), Fed::Taken);
    assert_eq!(counter.finish(), Some(1));
    assert_eq!(counter.feed(b"\n"), Fed::Taken);
    assert_eq!(counter.finish(), Some(1));
    assert_eq!(counter.feed(b"x"), Fed::Taken);
    assert_eq!(counter.finish(), Some(2));
}

#[test]
fn character_split_over_chunks_is_taken() {
    let crab = "🦀\n".as_bytes();
    let mut counter = LineCounter::new();
    assert_eq!(counter.feed(&crab[..1]), Fed::Taken);
    assert_eq!(counter.finish(), None);
    assert_eq!(counter.feed(&crab[1..3]), Fed::Taken);
    assert_eq!(counter.finish(), None);
    assert_eq!(counter.feed(&crab[3..4]), Fed::Taken);
    assert_eq!(counter.finish(), Some(1));
    assert_eq!(counter.feed(&crab[4..]), Fed::Taken);
    assert_eq!(counter.finish(), Some(1));
}

#[test]
fn stream_that_ends_inside_a_character_has_no_count() {
    let mut counter = LineCounter::new();
    assert_eq!(counter.feed(b"line\n\xe2\x82"), Fed::Taken);
    assert_eq!(counter.finish(), None);
    assert_eq!(counter.feed(b"\xac"), Fed::Taken);
    assert_eq!(counter.finish(), Some(2));
}

#[test]
fn chunk_that_breaks_the_text_is_refused_and_changes_nothing() {
    let mut counter = LineCounter::new();
    assert_eq!(counter.feed(b"first\nsecond"), Fed::Taken);
    assert_eq!(counter.feed(b"\n\xff\n"), Fed::NotText);
    assert_eq!(counter.finish(), Some(2));
    assert_eq!(counter.feed(b"\nthird\n"), Fed::Taken);
    assert_eq!(counter.finish(), Some(3));
}

#[test]
fn chunk_that_does_not_go_on_with_the_character_is_refused() {
    let mut counter = LineCounter::new();
    assert_eq!(counter.feed(b"a\n\xe2\x82"), Fed::Taken);
    assert_eq!(counter.feed(b"b\n"), Fed::NotText);
    assert_eq!(counter.feed(b"\x28"), Fed::NotText);
    assert_eq!(counter.feed(b"\xac\n"), Fed::Taken);
    assert_eq!(counter.finish(), Some(2));
}

#[test]
fn character_that_cannot_be_completed_is_refused_when_whole() {
    let mut counter = LineCounter::new();
    assert_eq!(counter.feed(b"\xe0\x80"), Fed::Taken);
    assert_eq!(counter.finish(), None);
    assert_eq!(counter.feed(b"\x80"), Fed::NotText);
    let mut counter = LineCounter::new();
    assert_eq!(counter.feed(b"\xed"), Fed::Taken);
    assert_eq!(counter.feed(b"\xa0"), Fed::Taken);
    assert_eq!(counter.feed(b"\x80"), Fed::NotText);
    assert_eq!(counter.finish(), None);
}
