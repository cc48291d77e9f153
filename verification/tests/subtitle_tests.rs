use srt_merge::subtitle::{
    content_to_subtitles, merge_subtitles, merge_subtitles_in_one,
    merge_subtitles_with_overlap_times, simplify_line, simplify_srt, srt_tags,
    subtitles_to_content, Subtitle,
};
use srt_merge::time::Time;

fn t(hours: i32, minutes: i32, seconds: i32, milliseconds: i32) -> Time {
    Time { hours, minutes, seconds, milliseconds }
}

fn entry(number: &str, start: Time, end: Time, texts: &[&str]) -> Subtitle {
    Subtitle {
        number: String::from(number),
        times: (start, end),
        texts: texts.iter().map(|s| String::from(*s)).collect(),
    }
}

fn assert_same(a: &Subtitle, b: &Subtitle) {
    assert_eq!(a.number, b.number);
    assert_eq!(a.times.0, b.times.0);
    assert_eq!(a.times.1, b.times.1);
    assert_eq!(a.texts, b.texts);
}

#[test]
fn tag_stripping_scenario() {
    let tags = srt_tags();
    assert_eq!(simplify_line("{\\an8}Hello {=0}world", &tags), "Hello world");
}

#[test]
fn tag_stripping_all_occurrences() {
    let tags = srt_tags();
    assert_eq!(simplify_line("{=0}a{=0}b{=0}", &tags), "ab");
    assert_eq!(simplify_line("no tags here", &tags), "no tags here");
    assert_eq!(simplify_line("", &tags), "");
}

#[test]
fn tag_stripping_custom_tags() {
    // The simplifier takes the tag list as a value, so alternate sets can
    // be injected; removal scans left to right over the original line.
    let tags = vec![String::from("ab")];
    assert_eq!(simplify_line("aabb", &tags), "ab");
    assert_eq!(simplify_line("ababab", &tags), "");
}

#[test]
fn tag_stripping_nested_fragments() {
    // Nested fragments can splice a tag together; one pass leaves it, a
    // second pass removes it. Idempotence holds only without nesting.
    let tags = srt_tags();
    let once = simplify_line("{\\an{=0}8}", &tags);
    assert_eq!(once, "{\\an8}");
    assert_eq!(simplify_line(&once, &tags), "");
}

#[test]
fn simplify_document_keeps_line_structure() {
    let out = simplify_srt(String::from("a{=0}\n\n{\\an8}b\n"));
    assert_eq!(out, "a\n\nb\n");
}

#[test]
fn simplify_document_terminates_last_line() {
    // The last line gains a terminating newline even when the input had
    // none.
    let out = simplify_srt(String::from("x{\\an8}"));
    assert_eq!(out, "x\n");
    assert_eq!(simplify_srt(String::new()), "");
}

#[test]
fn parse_two_blocks() {
    let doc = "1\n00:00:00,000 --> 00:00:05,000\nHello\n\n\
               2\n00:00:06,000 --> 00:00:08,000\nWorld\nAgain\n\n";
    let subs = content_to_subtitles(String::from(doc)).unwrap();
    assert_eq!(subs.len(), 2);
    assert_same(&subs[0], &entry("1", t(0, 0, 0, 0), t(0, 0, 5, 0), &["Hello"]));
    assert_same(
        &subs[1],
        &entry("2", t(0, 0, 6, 0), t(0, 0, 8, 0), &["World", "Again"]),
    );
}

#[test]
fn parse_drops_unterminated_final_block() {
    let doc = "1\n00:00:00,000 --> 00:00:05,000\nHello\n\n\
               2\n00:00:06,000 --> 00:00:08,000\nLost";
    let subs = content_to_subtitles(String::from(doc)).unwrap();
    assert_eq!(subs.len(), 1);
    assert_eq!(subs[0].number, "1");
}

#[test]
fn parse_empty_and_blank_documents() {
    assert_eq!(content_to_subtitles(String::new()).unwrap().len(), 0);
    assert_eq!(content_to_subtitles(String::from("\n\n\n")).unwrap().len(), 0);
}

#[test]
fn parse_malformed_span_rejects_document() {
    let doc = "1\nnot a span\nHello\n\n";
    assert!(content_to_subtitles(String::from(doc)).is_err());
    // Even a later block aborts the whole parse.
    let doc = "1\n00:00:00,000 --> 00:00:05,000\nHello\n\n2\nbroken\nx\n\n";
    assert!(content_to_subtitles(String::from(doc)).is_err());
}

#[test]
fn merge_empty_and_singleton() {
    let merged = merge_subtitles_with_overlap_times(Vec::new());
    assert_eq!(merged.len(), 0);

    let single = entry("1", t(0, 0, 0, 0), t(0, 0, 5, 0), &["Hello"]);
    let merged = merge_subtitles_with_overlap_times(vec![single.clone()]);
    assert_eq!(merged.len(), 1);
    assert_same(&merged[0], &single);
}

#[test]
fn merge_boundary_overlap_scenario() {
    // Touching endpoints count as overlap and merge into the covering
    // span with concatenated text.
    let a = entry("1", t(0, 0, 0, 0), t(0, 0, 5, 0), &["first"]);
    let b = entry("2", t(0, 0, 5, 0), t(0, 0, 10, 0), &["second"]);
    let merged = merge_subtitles_with_overlap_times(vec![a, b]);
    assert_eq!(merged.len(), 1);
    assert_same(
        &merged[0],
        &entry("1", t(0, 0, 0, 0), t(0, 0, 10, 0), &["first", "second"]),
    );
}

#[test]
fn merge_keeps_disjoint_entries() {
    let a = entry("1", t(0, 0, 0, 0), t(0, 0, 2, 0), &["first"]);
    let b = entry("2", t(0, 0, 3, 0), t(0, 0, 5, 0), &["second"]);
    let merged = merge_subtitles_with_overlap_times(vec![a.clone(), b.clone()]);
    assert_eq!(merged.len(), 2);
    assert_same(&merged[0], &a);
    assert_same(&merged[1], &b);
}

#[test]
fn merge_is_single_pass() {
    // A overlaps B; merged(A, B) would overlap C, but one pass does not
    // compare the merged entry again.
    let a = entry("1", t(0, 0, 0, 0), t(0, 0, 5, 0), &["a"]);
    let b = entry("2", t(0, 0, 4, 0), t(0, 0, 8, 0), &["b"]);
    let c = entry("3", t(0, 0, 8, 0), t(0, 0, 9, 0), &["c"]);
    let merged = merge_subtitles_with_overlap_times(vec![a, b, c.clone()]);
    assert_eq!(merged.len(), 2);
    assert_same(
        &merged[0],
        &entry("1", t(0, 0, 0, 0), t(0, 0, 8, 0), &["a", "b"]),
    );
    assert_same(&merged[1], &c);
}

#[test]
fn merge_pair_discards_second_index() {
    let a = entry("7", t(0, 0, 1, 0), t(0, 0, 5, 0), &["x"]);
    let b = entry("8", t(0, 0, 0, 0), t(0, 0, 4, 0), &["y", "z"]);
    let merged = merge_subtitles_in_one(a, b);
    assert_same(
        &merged,
        &entry("7", t(0, 0, 0, 0), t(0, 0, 5, 0), &["x", "y", "z"]),
    );
}

#[test]
fn serialize_two_entries() {
    let subs = vec![
        entry("1", t(0, 0, 0, 0), t(0, 0, 5, 0), &["Hello"]),
        entry("2", t(0, 0, 6, 0), t(0, 0, 8, 0), &["World", "Again"]),
    ];
    let text = subtitles_to_content(&subs);
    assert_eq!(
        text,
        "1\n00:00:00,000 --> 00:00:05,000\nHello\n\n\
         2\n00:00:06,000 --> 00:00:08,000\nWorld\nAgain\n\n"
    );
}

#[test]
fn serialize_then_parse_round_trip() {
    let subs = vec![
        entry("1", t(0, 0, 0, 0), t(0, 0, 5, 0), &["Hello"]),
        entry("17", t(1, 2, 3, 4), t(595, 59, 59, 999), &["a", "b", "c"]),
    ];
    let text = subtitles_to_content(&subs);
    let parsed = content_to_subtitles(text).unwrap();
    assert_eq!(parsed.len(), subs.len());
    for (p, s) in parsed.iter().zip(subs.iter()) {
        assert_same(p, s);
    }
}

#[test]
fn end_to_end_merge_scenario() {
    // A two-block document with overlapping spans merges into a single
    // block numbered after the first, holding both blocks' text lines.
    let doc = "1\n00:00:00,000 --> 00:00:05,000\nHello\n\n\
               2\n00:00:04,000 --> 00:00:08,000\nWorld\n\n";
    let out = merge_subtitles(String::from(doc)).unwrap();
    assert_eq!(out, "1\n00:00:00,000 --> 00:00:08,000\nHello\nWorld\n\n");
}

#[test]
fn end_to_end_merge_error() {
    assert!(merge_subtitles(String::from("1\nbroken span\ntext\n\n")).is_err());
}

#[test]
fn end_to_end_pipeline_with_tags() {
    let doc = "1\n00:00:00,000 --> 00:00:05,000\n{\\an8}Hello\n\n\
               2\n00:00:05,000 --> 00:00:08,000\n{=0}World\n\n";
    let simplified = simplify_srt(String::from(doc));
    let out = merge_subtitles(simplified).unwrap();
    assert_eq!(out, "1\n00:00:00,000 --> 00:00:08,000\nHello\nWorld\n\n");
}
