//! The subtitle engine: tag simplification, parsing SubRip text into
//! entries, merging overlapping entries, and serializing entries back.

use crate::text::{
    contains_seq, no_char, no_newline, remove_tags, split_lines, str_remove_tags, str_split_lines,
};
use crate::time::{
    empty_time, parse_span_spec, spans_overlap, time_wf, zero_time, convert_line_to_times,
    FormatError, Time,
};
use vstd::prelude::*;
use vstd::string::StringExecFns;

verus! {

/// One subtitle cue: its index label kept verbatim, its display span, and
/// its text lines.
pub struct Subtitle {
    pub number: String,
    pub times: (Time, Time),
    pub texts: Vec<String>,
}

/// The mathematical view of a cue.
#[verifier::ext_equal]
pub struct SubtitleView {
    pub number: Seq<char>,
    pub times: (Time, Time),
    pub texts: Seq<Seq<char>>,
}

impl View for Subtitle {
    type V = SubtitleView;

    open spec fn view(&self) -> SubtitleView {
        SubtitleView { number: self.number@, times: self.times, texts: self.texts.deep_view() }
    }
}

impl DeepView for Subtitle {
    type V = SubtitleView;

    open spec fn deep_view(&self) -> SubtitleView {
        self.view()
    }
}

/// A well-formed entry, as the parser produces them: a non-empty index
/// label, well-formed times, non-empty text lines, and no stray newline.
pub open spec fn entry_wf(e: SubtitleView) -> bool {
    &&& e.number.len() >= 1
    &&& no_newline(e.number)
    &&& time_wf(e.times.0)
    &&& time_wf(e.times.1)
    &&& forall|i: int|
        0 <= i < e.texts.len() ==> (#[trigger] e.texts[i]).len() >= 1 && no_newline(e.texts[i])
}

/// Every entry of a sequence is well formed.
pub open spec fn entries_wf(es: Seq<SubtitleView>) -> bool {
    forall|i: int| 0 <= i < es.len() ==> entry_wf(#[trigger] es[i])
}

// ---------------------------------------------------------------------------
// Parsing: a state machine over the lines
// ---------------------------------------------------------------------------

/// The parser's state within one block.
pub enum ParseState {
    /// Before a block: the next non-blank line is the index label.
    AwaitingIndex,
    /// After the index line: the next non-blank line is the span.
    AwaitingSpan { number: Seq<char> },
    /// After the span line: every further non-blank line is a text line.
    CollectingText { number: Seq<char>, times: (Time, Time), texts: Seq<Seq<char>> },
}

/// The entry a blank line finalizes from a state; fields never captured
/// are left at their placeholders.
pub open spec fn state_entry(st: ParseState) -> SubtitleView {
    match st {
        ParseState::AwaitingIndex => SubtitleView {
            number: Seq::<char>::empty(),
            times: (zero_time(), zero_time()),
            texts: Seq::<Seq<char>>::empty(),
        },
        ParseState::AwaitingSpan { number } => SubtitleView {
            number,
            times: (zero_time(), zero_time()),
            texts: Seq::<Seq<char>>::empty(),
        },
        ParseState::CollectingText { number, times, texts } => SubtitleView {
            number,
            times,
            texts,
        },
    }
}

/// One parser step on one line: the next state, and the entry emitted by
/// a blank line that closes a block. `None` is a malformed span line.
pub open spec fn parse_step(st: ParseState, line: Seq<char>) -> Option<
    (ParseState, Option<SubtitleView>),
> {
    if line.len() == 0 {
        if st is AwaitingIndex {
            Some((ParseState::AwaitingIndex, None))
        } else {
            Some((ParseState::AwaitingIndex, Some(state_entry(st))))
        }
    } else {
        match st {
            ParseState::AwaitingIndex => Some((ParseState::AwaitingSpan { number: line }, None)),
            ParseState::AwaitingSpan { number } => match parse_span_spec(line) {
                None => None,
                Some(ts) => Some(
                    (
                        ParseState::CollectingText {
                            number,
                            times: ts,
                            texts: Seq::<Seq<char>>::empty(),
                        },
                        None,
                    ),
                ),
            },
            ParseState::CollectingText { number, times, texts } => Some(
                (ParseState::CollectingText { number, times, texts: texts.push(line) }, None),
            ),
        }
    }
}

/// The entries the remaining lines yield from a state. A final block not
/// closed by a blank line yields no entry.
pub open spec fn parse_lines_from(st: ParseState, lines: Seq<Seq<char>>) -> Option<
    Seq<SubtitleView>,
>
    decreases lines.len(),
{
    if lines.len() == 0 {
        Some(Seq::<SubtitleView>::empty())
    } else {
        match parse_step(st, lines[0]) {
            None => None,
            Some((st2, emitted)) => match parse_lines_from(st2, lines.skip(1)) {
                None => None,
                Some(rest) => Some(
                    match emitted {
                        Some(e) => seq![e] + rest,
                        None => rest,
                    },
                ),
            },
        }
    }
}

/// The entries a SubRip document denotes, if every span line in a closed
/// block is well formed.
pub open spec fn parse_document_spec(s: Seq<char>) -> Option<Seq<SubtitleView>> {
    parse_lines_from(ParseState::AwaitingIndex, split_lines(s))
}

impl Clone for Subtitle {
    /// Copies a cue; the copy has the same view.
    fn clone(&self) -> (r: Self)
        ensures
            r@ == self@,
    {
        Subtitle {
            number: self.number.clone(),
            times: (self.times.0, self.times.1),
            texts: clone_string_vec(&self.texts),
        }
    }
}

/// Copies a vector of strings.
fn clone_string_vec(v: &Vec<String>) -> (r: Vec<String>)
    ensures
        r.deep_view() == v.deep_view(),
{
    let mut r: Vec<String> = Vec::new();
    let mut i: usize = 0;
    while i < v.len()
        invariant
            i <= v@.len(),
            r@.len() == i,
            forall|k: int| 0 <= k < i ==> (#[trigger] r@[k])@ == v@[k]@,
        decreases v@.len() - i,
    {
        r.push(v[i].clone());
        i = i + 1;
    }
    proof {
        assert forall|k: int| 0 <= k < r.deep_view().len() implies r.deep_view()[k]
            == v.deep_view()[k] by {
            assert(r@[k]@ == v@[k]@);
        }
        assert(r.deep_view() =~~= v.deep_view());
    }
    r
}

/// Parses simplified SubRip text into its subtitle entries. Fails with a
/// `FormatError` exactly when a span line of a closed block is malformed;
/// the whole document is then rejected.
pub fn content_to_subtitles(content: String) -> (r: Result<Vec<Subtitle>, FormatError>)
    ensures
        match r {
            Ok(subtitles) => parse_document_spec(content@) == Some(subtitles.deep_view())
                && entries_wf(subtitles.deep_view()),
            Err(_) => parse_document_spec(content@) is None,
        },
{
    let lines = str_split_lines(content.as_str());
    let ghost all_lines = split_lines(content@);
    proof {
        crate::text::lemma_split_lines_fields(content@);
    }

    let mut subtitles: Vec<Subtitle> = Vec::new();
    let mut iterator: usize = 0;
    let mut number = String::new();
    let mut times: (Time, Time) = empty_time();
    let mut texts: Vec<String> = Vec::new();
    let mut j: usize = 0;

    let ghost init = ParseState::AwaitingIndex;
    proof {
        assert(all_lines.skip(0) =~~= all_lines);
    }

    while j < lines.len()
        invariant
            j <= lines@.len(),
            lines.deep_view() == all_lines,
            all_lines == split_lines(content@),
            init == ParseState::AwaitingIndex,
            forall|k: int| 0 <= k < all_lines.len() ==> no_char(#[trigger] all_lines[k], '\n'),
            entries_wf(subtitles.deep_view()),
            iterator <= j,
            iterator == 0 ==> number@.len() == 0 && times == (zero_time(), zero_time())
                && texts@.len() == 0,
            iterator == 1 ==> number@.len() >= 1 && no_newline(number@) && times == (
                zero_time(),
                zero_time(),
            ) && texts@.len() == 0,
            iterator >= 2 ==> number@.len() >= 1 && no_newline(number@) && time_wf(times.0)
                && time_wf(times.1) && forall|i: int|
                0 <= i < texts.deep_view().len() ==> (#[trigger] texts.deep_view()[i]).len() >= 1
                    && no_newline(texts.deep_view()[i]),
            parse_lines_from(init, all_lines) == match parse_lines_from(
                current_state(iterator as int, number@, times, texts.deep_view()),
                all_lines.skip(j as int),
            ) {
                None => None,
                Some(rest) => Some(subtitles.deep_view() + rest),
            },
        decreases lines@.len() - j,
    {
        let ghost st = current_state(iterator as int, number@, times, texts.deep_view());
        let ghost suffix = all_lines.skip(j as int);
        proof {
            assert(suffix[0] == all_lines[j as int]);
            assert(suffix.skip(1) =~~= all_lines.skip(j as int + 1));
        }
        let line = &lines[j];
        proof {
            assert(line@ == all_lines[j as int]);
        }
        if line.as_str().is_empty() {
            if iterator > 0 {
                let ghost prev_subs = subtitles.deep_view();
                let subtitle = Subtitle {
                    number: number.clone(),
                    times: times,
                    texts: clone_string_vec(&texts),
                };
                proof {
                    assert(subtitle@ =~~= state_entry(st));
                }
                subtitles.push(subtitle);
                proof {
                    assert(subtitles.deep_view() =~~= prev_subs.push(state_entry(st)));
                }
                number = String::new();
                times = empty_time();
                texts = Vec::new();
                iterator = 0;
                proof {
                    assert(entry_wf(state_entry(st))) by {
                        assert(time_wf(zero_time()));
                    }
                    assert(entries_wf(subtitles.deep_view())) by {
                        assert forall|i: int|
                            0 <= i < subtitles.deep_view().len() implies entry_wf(
                            #[trigger] subtitles.deep_view()[i],
                        ) by {
                            if i < prev_subs.len() {
                                assert(subtitles.deep_view()[i] == prev_subs[i]);
                            } else {
                                assert(subtitles.deep_view()[i] == state_entry(st));
                            }
                        }
                    }
                    assert(parse_step(st, suffix[0]) == Some(
                        (ParseState::AwaitingIndex, Some(state_entry(st))),
                    ));
                    let tail = parse_lines_from(
                        ParseState::AwaitingIndex,
                        all_lines.skip(j as int + 1),
                    );
                    match tail {
                        Some(rest) => {
                            assert(prev_subs + (seq![state_entry(st)] + rest) =~~= subtitles
                                .deep_view() + rest);
                        },
                        None => {},
                    }
                }
            } else {
                proof {
                    assert(parse_step(st, suffix[0]) == Some(
                        (ParseState::AwaitingIndex, None::<SubtitleView>),
                    ));
                }
            }
        } else {
            if iterator == 0 {
                number = String::from_str(line.as_str());
            } else if iterator == 1 {
                match convert_line_to_times(String::from_str(line.as_str())) {
                    Ok(ts) => {
                        times = ts;
                        texts = Vec::new();
                        proof {
                            assert(texts.deep_view() =~~= Seq::<Seq<char>>::empty());
                        }
                    },
                    Err(e) => {
                        proof {
                            assert(parse_step(st, suffix[0]) is None);
                            assert(parse_lines_from(st, all_lines.skip(j as int)) is None);
                            assert(parse_lines_from(init, all_lines) is None);
                        }
                        return Err(e);
                    },
                }
            } else {
                let ghost prev_texts = texts.deep_view();
                texts.push(String::from_str(line.as_str()));
                proof {
                    assert(texts.deep_view() =~~= prev_texts.push(line@));
                }
            }
            iterator = iterator + 1;
        }
        j = j + 1;
    }
    proof {
        assert(all_lines.skip(lines@.len() as int) =~~= Seq::<Seq<char>>::empty());
        assert(subtitles.deep_view() + Seq::<SubtitleView>::empty() =~~= subtitles.deep_view());
    }
    Ok(subtitles)
}

/// The parser state that the running counter and captured fields stand
/// for: no line seen, an index line seen, or a span line seen as well.
pub open spec fn current_state(
    iterator: int,
    number: Seq<char>,
    times: (Time, Time),
    texts: Seq<Seq<char>>,
) -> ParseState {
    if iterator == 0 {
        ParseState::AwaitingIndex
    } else if iterator == 1 {
        ParseState::AwaitingSpan { number }
    } else {
        ParseState::CollectingText { number, times, texts }
    }
}

} // verus!

verus! {

// ---------------------------------------------------------------------------
// Merging overlapping entries
// ---------------------------------------------------------------------------

/// The entry that replaces an overlapping pair: the first entry's index,
/// the covering span, and both entries' text lines in order.
pub open spec fn merge_pair(current: SubtitleView, next: SubtitleView) -> SubtitleView {
    SubtitleView {
        number: current.number,
        times: crate::time::merged_span(current.times, next.times),
        texts: current.texts + next.texts,
    }
}

/// One left-to-right merge pass: an entry overlapping its immediate
/// successor is replaced by their merged entry, and the pass continues
/// after the pair; a merged entry is not compared again in the same pass.
pub open spec fn merge_seq(es: Seq<SubtitleView>) -> Seq<SubtitleView>
    decreases es.len(),
{
    if es.len() == 0 {
        Seq::<SubtitleView>::empty()
    } else if es.len() == 1 {
        seq![es[0]]
    } else if spans_overlap(es[0].times, es[1].times) {
        seq![merge_pair(es[0], es[1])] + merge_seq(es.skip(2))
    } else {
        seq![es[0]] + merge_seq(es.skip(1))
    }
}

/// A merge pass never lengthens the sequence; an empty input stays empty
/// and a single entry is kept unchanged.
pub proof fn lemma_merge_length(es: Seq<SubtitleView>)
    ensures
        merge_seq(es).len() <= es.len(),
        es.len() == 0 ==> merge_seq(es) == Seq::<SubtitleView>::empty(),
        es.len() == 1 ==> merge_seq(es) == seq![es[0]],
    decreases es.len(),
{
    if es.len() >= 2 {
        if spans_overlap(es[0].times, es[1].times) {
            lemma_merge_length(es.skip(2));
        } else {
            lemma_merge_length(es.skip(1));
        }
    }
}

/// A merge pass keeps every entry well formed.
pub proof fn lemma_merge_wf(es: Seq<SubtitleView>)
    requires
        entries_wf(es),
    ensures
        entries_wf(merge_seq(es)),
    decreases es.len(),
{
    if es.len() >= 2 {
        if spans_overlap(es[0].times, es[1].times) {
            assert(entries_wf(es.skip(2)));
            lemma_merge_wf(es.skip(2));
            assert(entry_wf(merge_pair(es[0], es[1]))) by {
                let e0 = es[0];
                let e1 = es[1];
                crate::time::lemma_millis_round_trip(
                    crate::time::min_int(
                        crate::time::time_millis(e0.times.0),
                        crate::time::time_millis(e1.times.0),
                    ),
                );
                crate::time::lemma_millis_round_trip(
                    crate::time::max_int(
                        crate::time::time_millis(e0.times.1),
                        crate::time::time_millis(e1.times.1),
                    ),
                );
                assert forall|i: int|
                    0 <= i < (e0.texts + e1.texts).len() implies ((#[trigger] (e0.texts
                    + e1.texts)[i]).len() >= 1 && no_newline((e0.texts + e1.texts)[i])) by {
                    if i < e0.texts.len() {
                        assert((e0.texts + e1.texts)[i] == e0.texts[i]);
                    } else {
                        assert((e0.texts + e1.texts)[i] == e1.texts[i - e0.texts.len()]);
                    }
                }
            }
            assert(entries_wf(merge_seq(es))) by {
                let m = merge_seq(es);
                assert forall|i: int| 0 <= i < m.len() implies entry_wf(#[trigger] m[i]) by {
                    if i == 0 {
                        assert(m[0] == merge_pair(es[0], es[1]));
                    } else {
                        assert(m[i] == merge_seq(es.skip(2))[i - 1]);
                    }
                }
            }
        } else {
            assert(entries_wf(es.skip(1)));
            lemma_merge_wf(es.skip(1));
            assert(entries_wf(merge_seq(es))) by {
                let m = merge_seq(es);
                assert forall|i: int| 0 <= i < m.len() implies entry_wf(#[trigger] m[i]) by {
                    if i == 0 {
                        assert(m[0] == es[0]);
                    } else {
                        assert(m[i] == merge_seq(es.skip(1))[i - 1]);
                    }
                }
            }
        }
    }
}

/// Builds the one entry that stands for an overlapping pair: the first
/// entry's index, the covering span, and both entries' text lines.
pub fn merge_subtitles_in_one(current_subtitle: Subtitle, next_subtitle: Subtitle) -> (r: Subtitle)
    requires
        time_wf(current_subtitle.times.0),
        time_wf(current_subtitle.times.1),
        time_wf(next_subtitle.times.0),
        time_wf(next_subtitle.times.1),
    ensures
        r@ == merge_pair(current_subtitle@, next_subtitle@),
{
    let number = current_subtitle.number.clone();
    let times = crate::time::get_min_max_times(current_subtitle.times, next_subtitle.times);
    let mut texts: Vec<String> = clone_string_vec(&current_subtitle.texts);
    let ghost cur_texts = current_subtitle.texts.deep_view();
    let ghost next_texts = next_subtitle.texts.deep_view();
    let mut i: usize = 0;
    while i < next_subtitle.texts.len()
        invariant
            i <= next_subtitle.texts@.len(),
            next_texts == next_subtitle.texts.deep_view(),
            texts@.len() == cur_texts.len() + i,
            forall|k: int| 0 <= k < cur_texts.len() ==> (#[trigger] texts@[k])@ == cur_texts[k],
            forall|k: int|
                cur_texts.len() <= k < texts@.len() ==> (#[trigger] texts@[k])@ == next_texts[k
                    - cur_texts.len()],
        decreases next_subtitle.texts@.len() - i,
    {
        texts.push(next_subtitle.texts[i].clone());
        i = i + 1;
    }
    let subtitle = Subtitle { number, times, texts };
    proof {
        assert(subtitle@.texts =~~= cur_texts + next_texts);
        assert(subtitle@ =~~= merge_pair(current_subtitle@, next_subtitle@));
    }
    subtitle
}

/// One merge pass over the entries, in order: each entry overlapping its
/// immediate successor is replaced by their merged entry; the result is
/// never longer than the input.
pub fn merge_subtitles_with_overlap_times(subtitles: Vec<Subtitle>) -> (r: Vec<Subtitle>)
    requires
        entries_wf(subtitles.deep_view()),
    ensures
        r.deep_view() == merge_seq(subtitles.deep_view()),
        entries_wf(r.deep_view()),
        r.deep_view().len() <= subtitles.deep_view().len(),
{
    let ghost all = subtitles.deep_view();
    let mut subtitles_merged: Vec<Subtitle> = Vec::new();
    proof {
        lemma_merge_wf(all);
        lemma_merge_length(all);
    }
    if subtitles.len() == 0 {
        proof {
            assert(subtitles_merged.deep_view() =~~= merge_seq(all));
        }
        return subtitles_merged;
    }
    let mut iterator: usize = 0;
    proof {
        assert(all.skip(0) =~~= all);
    }
    while iterator < subtitles.len() - 1
        invariant
            subtitles@.len() >= 1,
            iterator <= subtitles@.len(),
            all == subtitles.deep_view(),
            entries_wf(all),
            merge_seq(all) == subtitles_merged.deep_view() + merge_seq(all.skip(iterator as int)),
        decreases subtitles@.len() - iterator,
    {
        let ghost suffix = all.skip(iterator as int);
        proof {
            assert(suffix[0] == all[iterator as int]);
            assert(suffix[1] == all[iterator as int + 1]);
            assert(entry_wf(all[iterator as int]));
            assert(entry_wf(all[iterator as int + 1]));
        }
        let current_subtitle = subtitles[iterator].clone();
        let next_subtitle = subtitles[iterator + 1].clone();

        let has_overlap = crate::time::has_overlap_times(
            current_subtitle.times,
            next_subtitle.times,
        );

        if has_overlap {
            let ghost prev = subtitles_merged.deep_view();
            let merged_subtitle = merge_subtitles_in_one(current_subtitle, next_subtitle);
            subtitles_merged.push(merged_subtitle);
            proof {
                assert(suffix.skip(2) =~~= all.skip(iterator as int + 2));
                assert(subtitles_merged.deep_view() =~~= prev.push(merge_pair(suffix[0], suffix[1])));
                assert(prev + (seq![merge_pair(suffix[0], suffix[1])] + merge_seq(suffix.skip(2)))
                    =~~= subtitles_merged.deep_view() + merge_seq(suffix.skip(2)));
            }
            iterator = iterator + 2;
        } else {
            let ghost prev = subtitles_merged.deep_view();
            subtitles_merged.push(current_subtitle);
            proof {
                assert(suffix.skip(1) =~~= all.skip(iterator as int + 1));
                assert(subtitles_merged.deep_view() =~~= prev.push(suffix[0]));
                assert(prev + (seq![suffix[0]] + merge_seq(suffix.skip(1))) =~~= subtitles_merged
                    .deep_view() + merge_seq(suffix.skip(1)));
            }
            iterator = iterator + 1;
        }
    }
    if iterator == subtitles.len() - 1 {
        let ghost prev = subtitles_merged.deep_view();
        let ghost suffix = all.skip(iterator as int);
        let last_subtitle = subtitles[iterator].clone();
        subtitles_merged.push(last_subtitle);
        proof {
            assert(suffix.len() == 1);
            assert(suffix[0] == all[iterator as int]);
            assert(merge_seq(suffix) == seq![suffix[0]]);
            assert(subtitles_merged.deep_view() =~~= prev.push(suffix[0]));
            assert(prev + seq![suffix[0]] =~~= subtitles_merged.deep_view());
        }
    } else {
        proof {
            assert(all.skip(iterator as int) =~~= Seq::<SubtitleView>::empty());
            assert(subtitles_merged.deep_view() + Seq::<SubtitleView>::empty()
                =~~= subtitles_merged.deep_view());
        }
    }
    subtitles_merged
}

} // verus!

verus! {

// ---------------------------------------------------------------------------
// Serializing entries back to SubRip text
// ---------------------------------------------------------------------------

/// Each line followed by a newline, concatenated.
pub open spec fn lines_terminated(ls: Seq<Seq<char>>) -> Seq<char>
    decreases ls.len(),
{
    if ls.len() == 0 {
        Seq::<char>::empty()
    } else {
        ls[0] + seq!['\n'] + lines_terminated(ls.skip(1))
    }
}

/// The SubRip text of one entry: index line, span line, text lines, and a
/// closing blank line, each newline-terminated.
pub open spec fn serialize_entry(e: SubtitleView) -> Seq<char> {
    e.number + seq!['\n'] + crate::time::format_span_spec(e.times.0, e.times.1) + seq!['\n']
        + lines_terminated(e.texts) + seq!['\n']
}

/// The SubRip text of a sequence of entries, in order.
pub open spec fn serialize_spec(es: Seq<SubtitleView>) -> Seq<char>
    decreases es.len(),
{
    if es.len() == 0 {
        Seq::<char>::empty()
    } else {
        serialize_entry(es[0]) + serialize_spec(es.skip(1))
    }
}

/// Serialization emits entries left to right.
pub proof fn lemma_serialize_snoc(es: Seq<SubtitleView>, e: SubtitleView)
    ensures
        serialize_spec(es.push(e)) == serialize_spec(es) + serialize_entry(e),
    decreases es.len(),
{
    assert(serialize_spec(Seq::<SubtitleView>::empty()) == Seq::<char>::empty());
    if es.len() == 0 {
        assert(es.push(e)[0] == e);
        assert(es.push(e).skip(1) =~~= Seq::<SubtitleView>::empty());
        assert(serialize_spec(es.push(e)) == serialize_entry(e) + serialize_spec(
            Seq::<SubtitleView>::empty(),
        ));
        assert(serialize_entry(e) + Seq::<char>::empty() =~= Seq::<char>::empty()
            + serialize_entry(e));
    } else {
        assert(es.push(e)[0] == es[0]);
        assert(es.push(e).skip(1) =~~= es.skip(1).push(e));
        lemma_serialize_snoc(es.skip(1), e);
        assert(serialize_spec(es.push(e)) == serialize_entry(es[0]) + serialize_spec(
            es.skip(1).push(e),
        ));
        assert(serialize_entry(es[0]) + (serialize_spec(es.skip(1)) + serialize_entry(e))
            =~= (serialize_entry(es[0]) + serialize_spec(es.skip(1))) + serialize_entry(e));
    }
}

/// Text lines are emitted left to right.
pub proof fn lemma_lines_terminated_snoc(ls: Seq<Seq<char>>, l: Seq<char>)
    ensures
        lines_terminated(ls.push(l)) == lines_terminated(ls) + l + seq!['\n'],
    decreases ls.len(),
{
    assert(lines_terminated(Seq::<Seq<char>>::empty()) == Seq::<char>::empty());
    if ls.len() == 0 {
        assert(ls.push(l)[0] == l);
        assert(ls.push(l).skip(1) =~~= Seq::<Seq<char>>::empty());
        assert(lines_terminated(ls.push(l)) == l + seq!['\n'] + lines_terminated(
            Seq::<Seq<char>>::empty(),
        ));
        assert(l + seq!['\n'] + Seq::<char>::empty() =~= Seq::<char>::empty() + l + seq!['\n']);
    } else {
        assert(ls.push(l)[0] == ls[0]);
        assert(ls.push(l).skip(1) =~~= ls.skip(1).push(l));
        lemma_lines_terminated_snoc(ls.skip(1), l);
        assert(ls[0] + seq!['\n'] + (lines_terminated(ls.skip(1)) + l + seq!['\n'])
            =~= (ls[0] + seq!['\n'] + lines_terminated(ls.skip(1))) + l + seq!['\n']);
    }
}

/// Renders the entries as SubRip text: for each entry its index line, its
/// span line, its text lines, then one blank separator line.
#[verifier::rlimit(60)]
pub fn subtitles_to_content(subtitles: &Vec<Subtitle>) -> (r: String)
    requires
        entries_wf(subtitles.deep_view()),
    ensures
        r@ == serialize_spec(subtitles.deep_view()),
{
    let ghost all = subtitles.deep_view();
    let mut new_content = String::new();
    let mut i: usize = 0;
    proof {
        assert(all.take(0) =~~= Seq::<SubtitleView>::empty());
    }
    while i < subtitles.len()
        invariant
            i <= subtitles@.len(),
            all == subtitles.deep_view(),
            entries_wf(all),
            new_content@ == serialize_spec(all.take(i as int)),
        decreases subtitles@.len() - i,
    {
        let subtitle = &subtitles[i];
        proof {
            assert(subtitle@ == all[i as int]);
            assert(entry_wf(all[i as int]));
        }
        let ghost entry_start = new_content@;
        new_content.append(subtitle.number.as_str());
        crate::text::push_char(&mut new_content, '\n');
        let start_text = crate::time::format_timestamp(&subtitle.times.0);
        new_content.append(start_text.as_str());
        let arrow = " --> ";
        proof {
            reveal_strlit(" --> ");
            assert(arrow@ =~= crate::time::arrow_sep());
        }
        new_content.append(arrow);
        let end_text = crate::time::format_timestamp(&subtitle.times.1);
        new_content.append(end_text.as_str());
        crate::text::push_char(&mut new_content, '\n');
        proof {
            assert(new_content@ =~= entry_start + subtitle@.number + seq!['\n']
                + crate::time::format_span_spec(subtitle@.times.0, subtitle@.times.1)
                + seq!['\n']);
        }
        let ghost texts_start = new_content@;
        let ghost texts_all = subtitle@.texts;
        let mut k: usize = 0;
        proof {
            assert(texts_all.take(0) =~~= Seq::<Seq<char>>::empty());
            assert(texts_start + lines_terminated(texts_all.take(0)) =~= texts_start);
        }
        while k < subtitle.texts.len()
            invariant
                k <= subtitle.texts@.len(),
                texts_all == subtitle.texts.deep_view(),
                new_content@ == texts_start + lines_terminated(texts_all.take(k as int)),
            decreases subtitle.texts@.len() - k,
        {
            let text = &subtitle.texts[k];
            proof {
                assert(text@ == texts_all[k as int]);
            }
            new_content.append(text.as_str());
            crate::text::push_char(&mut new_content, '\n');
            proof {
                assert(texts_all.take(k as int + 1) =~~= texts_all.take(k as int).push(
                    texts_all[k as int],
                ));
                lemma_lines_terminated_snoc(texts_all.take(k as int), texts_all[k as int]);
                assert(new_content@ =~= texts_start + lines_terminated(
                    texts_all.take(k as int + 1),
                ));
            }
            k = k + 1;
        }
        proof {
            assert(texts_all.take(subtitle.texts@.len() as int) =~~= texts_all);
        }
        crate::text::push_char(&mut new_content, '\n');
        proof {
            assert(all.take(i as int + 1) =~~= all.take(i as int).push(all[i as int]));
            lemma_serialize_snoc(all.take(i as int), all[i as int]);
            assert(new_content@ =~= entry_start + serialize_entry(all[i as int]));
            assert(new_content@ =~= serialize_spec(all.take(i as int + 1)));
        }
        i = i + 1;
    }
    proof {
        assert(all.take(subtitles@.len() as int) =~~= all);
    }
    new_content
}

} // verus!

verus! {

// ---------------------------------------------------------------------------
// The round trip: parsing serialized entries returns the same entries
// ---------------------------------------------------------------------------

/// The lines one serialized entry contributes: index line, span line, the
/// text lines, and the closing blank line.
pub open spec fn block_lines(e: SubtitleView) -> Seq<Seq<char>> {
    seq![e.number] + seq![crate::time::format_span_spec(e.times.0, e.times.1)] + e.texts
        + seq![Seq::<char>::empty()]
}

/// The lines a serialized document consists of, entry by entry.
pub open spec fn doc_lines(es: Seq<SubtitleView>) -> Seq<Seq<char>>
    decreases es.len(),
{
    if es.len() == 0 {
        Seq::<Seq<char>>::empty()
    } else {
        block_lines(es[0]) + doc_lines(es.skip(1))
    }
}

/// A formatted span line holds no newline.
pub proof fn lemma_span_no_newline(a: Time, b: Time)
    requires
        time_wf(a),
        time_wf(b),
    ensures
        no_char(crate::time::format_span_spec(a, b), '\n'),
{
    crate::time::lemma_format_timestamp_no_char(a, '\n');
    crate::time::lemma_format_timestamp_no_char(b, '\n');
    assert(no_char(crate::time::arrow_sep(), '\n'));
    crate::text::lemma_no_char_concat(
        crate::time::format_timestamp_spec(a),
        crate::time::arrow_sep(),
        '\n',
    );
    crate::text::lemma_no_char_concat(
        crate::time::format_timestamp_spec(a) + crate::time::arrow_sep(),
        crate::time::format_timestamp_spec(b),
        '\n',
    );
}

/// Splitting newline-terminated lines followed by further text yields
/// those lines and then the lines of the rest.
pub proof fn lemma_split_terminated(ts: Seq<Seq<char>>, tail: Seq<char>)
    requires
        forall|i: int| 0 <= i < ts.len() ==> no_newline(#[trigger] ts[i]),
    ensures
        split_lines(lines_terminated(ts) + tail) == ts + split_lines(tail),
    decreases ts.len(),
{
    if ts.len() == 0 {
        assert(lines_terminated(ts) + tail =~= tail);
        assert(Seq::<Seq<char>>::empty() + split_lines(tail) =~~= split_lines(tail));
    } else {
        assert(lines_terminated(ts) + tail =~= ts[0] + seq!['\n'] + (lines_terminated(ts.skip(1))
            + tail));
        crate::text::lemma_split_lines_line(ts[0], lines_terminated(ts.skip(1)) + tail);
        lemma_split_terminated(ts.skip(1), tail);
        assert(seq![ts[0]] + (ts.skip(1) + split_lines(tail)) =~~= ts + split_lines(tail));
    }
}

/// The lines of a serialized document are exactly its entries' block
/// lines.
pub proof fn lemma_split_serialize(es: Seq<SubtitleView>)
    requires
        entries_wf(es),
    ensures
        split_lines(serialize_spec(es)) == doc_lines(es),
    decreases es.len(),
{
    if es.len() == 0 {
        crate::text::lemma_split_lines_empty();
    } else {
        let e = es[0];
        assert(entry_wf(e));
        let span = crate::time::format_span_spec(e.times.0, e.times.1);
        let rest_text = serialize_spec(es.skip(1));
        let whole = serialize_spec(es);
        assert(whole == serialize_entry(e) + rest_text);
        assert(whole =~= e.number + seq!['\n'] + (span + seq!['\n'] + (lines_terminated(e.texts)
            + (Seq::<char>::empty() + seq!['\n'] + rest_text))));
        crate::text::lemma_split_lines_line(
            e.number,
            span + seq!['\n'] + (lines_terminated(e.texts) + (Seq::<char>::empty() + seq!['\n']
                + rest_text)),
        );
        lemma_span_no_newline(e.times.0, e.times.1);
        crate::text::lemma_split_lines_line(
            span,
            lines_terminated(e.texts) + (Seq::<char>::empty() + seq!['\n'] + rest_text),
        );
        lemma_split_terminated(e.texts, Seq::<char>::empty() + seq!['\n'] + rest_text);
        crate::text::lemma_split_lines_line(Seq::<char>::empty(), rest_text);
        assert(entries_wf(es.skip(1)));
        lemma_split_serialize(es.skip(1));
        assert(split_lines(whole) == seq![e.number] + (seq![span] + (e.texts
            + (seq![Seq::<char>::empty()] + doc_lines(es.skip(1))))));
        assert(seq![e.number] + (seq![span] + (e.texts + (seq![Seq::<char>::empty()] + doc_lines(
            es.skip(1),
        )))) =~~= block_lines(e) + doc_lines(es.skip(1)));
    }
}

/// From a block in progress, the remaining text lines and the closing
/// blank line finalize the entry, and parsing continues fresh.
pub proof fn lemma_parse_texts(
    number: Seq<char>,
    times: (Time, Time),
    acc: Seq<Seq<char>>,
    ts: Seq<Seq<char>>,
    rest: Seq<Seq<char>>,
)
    requires
        forall|i: int| 0 <= i < ts.len() ==> (#[trigger] ts[i]).len() >= 1,
    ensures
        parse_lines_from(
            ParseState::CollectingText { number, times, texts: acc },
            ts + seq![Seq::<char>::empty()] + rest,
        ) == match parse_lines_from(ParseState::AwaitingIndex, rest) {
            None => None::<Seq<SubtitleView>>,
            Some(r) => Some(seq![SubtitleView { number, times, texts: acc + ts }] + r),
        },
    decreases ts.len(),
{
    let st = ParseState::CollectingText { number, times, texts: acc };
    let lines = ts + seq![Seq::<char>::empty()] + rest;
    if ts.len() == 0 {
        assert(lines[0] =~= Seq::<char>::empty());
        assert(lines[0].len() == 0);
        assert(parse_step(st, lines[0]) == Some(
            (ParseState::AwaitingIndex, Some(state_entry(st))),
        ));
        assert(lines.skip(1) =~~= rest);
        assert(state_entry(st) =~~= SubtitleView { number, times, texts: acc + ts }) by {
            assert(acc + ts =~~= acc);
        }
    } else {
        assert(lines[0] == ts[0]);
        assert(ts[0].len() >= 1);
        assert(parse_step(st, lines[0]) == Some(
            (
                ParseState::CollectingText { number, times, texts: acc.push(ts[0]) },
                None::<SubtitleView>,
            ),
        ));
        assert(lines.skip(1) =~~= ts.skip(1) + seq![Seq::<char>::empty()] + rest);
        lemma_parse_texts(number, times, acc.push(ts[0]), ts.skip(1), rest);
        assert(acc.push(ts[0]) + ts.skip(1) =~~= acc + ts);
    }
}

/// Parsing the block lines of well-formed entries yields those entries.
pub proof fn lemma_parse_doc_lines(es: Seq<SubtitleView>)
    requires
        entries_wf(es),
    ensures
        parse_lines_from(ParseState::AwaitingIndex, doc_lines(es)) == Some(es),
    decreases es.len(),
{
    if es.len() == 0 {
        assert(doc_lines(es).len() == 0);
        assert(Seq::<SubtitleView>::empty() =~~= es);
    } else {
        let e = es[0];
        assert(entry_wf(e));
        let span = crate::time::format_span_spec(e.times.0, e.times.1);
        let lines = doc_lines(es);
        let rest = doc_lines(es.skip(1));
        assert(lines == block_lines(e) + rest);
        assert(lines[0] == e.number);
        assert(e.number.len() >= 1);
        assert(parse_step(ParseState::AwaitingIndex, lines[0]) == Some(
            (ParseState::AwaitingSpan { number: e.number }, None::<SubtitleView>),
        ));
        let tail1 = lines.skip(1);
        assert(tail1 =~~= seq![span] + (e.texts + seq![Seq::<char>::empty()] + rest));
        assert(tail1[0] == span);
        assert(span.len() >= 5);
        crate::time::lemma_format_parse_span(e.times.0, e.times.1);
        assert(parse_step(ParseState::AwaitingSpan { number: e.number }, span) == Some(
            (
                ParseState::CollectingText {
                    number: e.number,
                    times: (e.times.0, e.times.1),
                    texts: Seq::<Seq<char>>::empty(),
                },
                None::<SubtitleView>,
            ),
        ));
        assert((e.times.0, e.times.1) == e.times);
        let tail2 = tail1.skip(1);
        assert(tail2 =~~= e.texts + seq![Seq::<char>::empty()] + rest);
        lemma_parse_texts(e.number, e.times, Seq::<Seq<char>>::empty(), e.texts, rest);
        assert(entries_wf(es.skip(1)));
        lemma_parse_doc_lines(es.skip(1));
        assert(Seq::<Seq<char>>::empty() + e.texts =~~= e.texts);
        assert(SubtitleView { number: e.number, times: e.times, texts: e.texts } =~~= e);
        assert(seq![e] + es.skip(1) =~~= es);
        let st1 = ParseState::AwaitingSpan { number: e.number };
        let st2 = ParseState::CollectingText {
            number: e.number,
            times: e.times,
            texts: Seq::<Seq<char>>::empty(),
        };
        assert(parse_lines_from(ParseState::AwaitingIndex, lines) == parse_lines_from(
            st1,
            tail1,
        ));
        assert(tail1.len() >= 1);
        assert(parse_lines_from(st1, tail1) == parse_lines_from(st2, tail2));
        assert(parse_lines_from(st2, tail2) == parse_lines_from(
            st2,
            e.texts + seq![Seq::<char>::empty()] + rest,
        ));
        assert(parse_lines_from(st2, e.texts + seq![Seq::<char>::empty()] + rest) == Some(
            seq![e] + es.skip(1),
        ));
    }
}

/// The round-trip law: serializing any sequence of well-formed entries --
/// in particular any sequence the parser produced -- and parsing the text
/// back yields an equal sequence of entries.
pub proof fn lemma_parse_serialize_round_trip(es: Seq<SubtitleView>)
    requires
        entries_wf(es),
    ensures
        parse_document_spec(serialize_spec(es)) == Some(es),
{
    lemma_split_serialize(es);
    lemma_parse_doc_lines(es);
}

} // verus!

verus! {

// ---------------------------------------------------------------------------
// Tag simplification
// ---------------------------------------------------------------------------

/// The first stripped tag: a position override mark.
pub open spec fn tag_an8() -> Seq<char> {
    seq!['{', '\\', 'a', 'n', '8', '}']
}

/// The second stripped tag: a karaoke timing mark.
pub open spec fn tag_eq0() -> Seq<char> {
    seq!['{', '=', '0', '}']
}

/// The fixed, ordered tag list that SubRip simplification strips.
pub open spec fn srt_tag_views() -> Seq<Seq<char>> {
    seq![tag_an8(), tag_eq0()]
}

/// The fixed tag list, as owned strings ready for injection into the
/// simplifier.
pub fn srt_tags() -> (r: Vec<String>)
    ensures
        r.deep_view() == srt_tag_views(),
{
    let mut r: Vec<String> = Vec::new();
    let first = "{\\an8}";
    let second = "{=0}";
    proof {
        reveal_strlit("{\\an8}");
        reveal_strlit("{=0}");
        assert(first@ =~= tag_an8());
        assert(second@ =~= tag_eq0());
    }
    r.push(String::from_str(first));
    r.push(String::from_str(second));
    proof {
        assert(r.deep_view() =~~= srt_tag_views());
    }
    r
}

/// A line with every occurrence of every fixed tag removed.
pub open spec fn simplify_line_spec(line: Seq<char>) -> Seq<char> {
    remove_tags(line, srt_tag_views())
}

/// Removes every occurrence of each given tag from one line, tags applied
/// in order.
pub fn simplify_line(line: &str, tags: &Vec<String>) -> (r: String)
    ensures
        r@ == remove_tags(line@, tags.deep_view()),
{
    str_remove_tags(line, tags)
}

/// The idempotence law of simplification: stripping the fixed tags twice
/// equals stripping them once, on every line whose once-stripped form
/// holds no further tag occurrence. Removal can splice a new occurrence
/// together only out of nested tag fragments, which ordinary subtitle
/// lines do not hold.
pub proof fn lemma_simplify_line_idempotent(line: Seq<char>)
    requires
        forall|k: int|
            0 <= k < srt_tag_views().len() ==> !contains_seq(
                simplify_line_spec(line),
                #[trigger] srt_tag_views()[k],
            ),
    ensures
        simplify_line_spec(simplify_line_spec(line)) == simplify_line_spec(line),
{
    crate::text::lemma_remove_tags_idempotent(line, srt_tag_views());
}

/// The simplified document: every line stripped of the tags, each line
/// newline-terminated, in original order, blank lines kept.
pub open spec fn simplify_document_spec(s: Seq<char>, tags: Seq<Seq<char>>) -> Seq<char> {
    lines_terminated(split_lines(s).map_values(|l: Seq<char>| remove_tags(l, tags)))
}

/// Strips the fixed tags from every line of a SubRip document. The output
/// has one newline-terminated line per input line, in order, with blank
/// lines preserved.
pub fn simplify_srt(content: String) -> (r: String)
    ensures
        r@ == simplify_document_spec(content@, srt_tag_views()),
{
    let tags = srt_tags();
    let lines = str_split_lines(content.as_str());
    let ghost all_lines = split_lines(content@);
    let ghost mapped = all_lines.map_values(
        |l: Seq<char>| remove_tags(l, srt_tag_views()),
    );

    let mut simplified_content = String::new();
    let mut i: usize = 0;
    proof {
        assert(mapped.take(0) =~~= Seq::<Seq<char>>::empty());
    }
    while i < lines.len()
        invariant
            i <= lines@.len(),
            lines.deep_view() == all_lines,
            tags.deep_view() == srt_tag_views(),
            mapped == all_lines.map_values(|l: Seq<char>| remove_tags(l, srt_tag_views())),
            simplified_content@ == lines_terminated(mapped.take(i as int)),
        decreases lines@.len() - i,
    {
        let line = &lines[i];
        proof {
            assert(line@ == all_lines[i as int]);
            assert(mapped[i as int] == remove_tags(line@, srt_tag_views()));
        }
        let new_line = str_remove_tags(line.as_str(), &tags);
        simplified_content.append(new_line.as_str());
        crate::text::push_char(&mut simplified_content, '\n');
        proof {
            assert(mapped.take(i as int + 1) =~~= mapped.take(i as int).push(mapped[i as int]));
            lemma_lines_terminated_snoc(mapped.take(i as int), mapped[i as int]);
            assert(simplified_content@ =~= lines_terminated(mapped.take(i as int + 1)));
        }
        i = i + 1;
    }
    proof {
        assert(mapped.take(lines@.len() as int) =~~= mapped);
    }
    simplified_content
}

// ---------------------------------------------------------------------------
// The merge pipeline over whole documents
// ---------------------------------------------------------------------------

/// The merged document a SubRip text denotes: its entries, one merge pass
/// applied, serialized back; `None` when the text does not parse.
pub open spec fn merged_document_spec(s: Seq<char>) -> Option<Seq<char>> {
    match parse_document_spec(s) {
        None => None,
        Some(es) => Some(serialize_spec(merge_seq(es))),
    }
}

/// Parses a simplified SubRip document, merges temporally overlapping
/// consecutive entries in one pass, and serializes the result. Fails with
/// a `FormatError` exactly when the document does not parse.
pub fn merge_subtitles(content: String) -> (r: Result<String, FormatError>)
    ensures
        match r {
            Ok(out) => merged_document_spec(content@) == Some(out@),
            Err(_) => merged_document_spec(content@) is None,
        },
{
    let subtitles: Vec<Subtitle> = match content_to_subtitles(content) {
        Ok(subs) => subs,
        Err(e) => {
            return Err(e);
        },
    };

    let subtitles: Vec<Subtitle> = merge_subtitles_with_overlap_times(subtitles);

    let new_content = subtitles_to_content(&subtitles);

    Ok(new_content)
}

} // verus!
