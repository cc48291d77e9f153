//! The time model: a timestamp with hour/minute/second/millisecond fields,
//! and its conversions to and from a flat millisecond count.

use vstd::arithmetic::div_mod::{
    lemma_div_is_ordered, lemma_div_nonincreasing, lemma_fundamental_div_mod, lemma_mod_bound,
    lemma_multiply_divide_lt,
};
use vstd::prelude::*;

verus! {

/// A subtitle timestamp. Fields are kept exactly as written in the source
/// text, so a parsed value need not be normalized (minutes may exceed 59);
/// values produced from a millisecond count are normalized.
#[derive(Clone, Copy, PartialEq, Eq, Structural, Debug)]
pub struct Time {
    pub hours: i32,
    pub minutes: i32,
    pub seconds: i32,
    pub milliseconds: i32,
}

/// The flat millisecond count that a `Time` stands for.
pub open spec fn time_millis(t: Time) -> int {
    t.hours as int * 3600000 + t.minutes as int * 60000 + t.seconds as int * 1000
        + t.milliseconds as int
}

/// A well-formed `Time`: non-negative fields whose flat millisecond count
/// fits an `i32`. Every time the library produces is well formed.
pub open spec fn time_wf(t: Time) -> bool {
    &&& 0 <= t.hours
    &&& 0 <= t.minutes
    &&& 0 <= t.seconds
    &&& 0 <= t.milliseconds
    &&& time_millis(t) <= i32::MAX
}

/// The all-zero timestamp `00:00:00,000`.
pub open spec fn zero_time() -> Time {
    Time { hours: 0, minutes: 0, seconds: 0, milliseconds: 0 }
}

/// The normalized `Time` for a non-negative millisecond count: fields are
/// obtained by integer division and remainder, in the order hours, minutes,
/// seconds, milliseconds.
pub open spec fn time_from_millis(m: int) -> Time {
    Time {
        hours: (m / 3600000) as i32,
        minutes: (m % 3600000 / 60000) as i32,
        seconds: (m % 3600000 % 60000 / 1000) as i32,
        milliseconds: (m % 3600000 % 60000 % 1000) as i32,
    }
}

/// Converting a millisecond count to a `Time` and back returns the count
/// unchanged, and the `Time` is well formed and normalized.
pub proof fn lemma_millis_round_trip(m: int)
    requires
        0 <= m <= i32::MAX,
    ensures
        time_millis(time_from_millis(m)) == m,
        time_wf(time_from_millis(m)),
        time_from_millis(m).minutes < 60,
        time_from_millis(m).seconds < 60,
        time_from_millis(m).milliseconds < 1000,
{
    let h = m / 3600000;
    let r1 = m % 3600000;
    let mi = r1 / 60000;
    let r2 = r1 % 60000;
    let s = r2 / 1000;
    let r3 = r2 % 1000;
    lemma_fundamental_div_mod(m, 3600000);
    lemma_mod_bound(m, 3600000);
    lemma_fundamental_div_mod(r1, 60000);
    lemma_mod_bound(r1, 60000);
    lemma_fundamental_div_mod(r2, 1000);
    lemma_mod_bound(r2, 1000);
    lemma_div_is_ordered(0, m, 3600000);
    lemma_div_is_ordered(0, r1, 60000);
    lemma_div_is_ordered(0, r2, 1000);
    lemma_div_nonincreasing(m, 3600000);
    assert(h * 3600000 == m - r1);
    assert(mi * 60000 == r1 - r2);
    assert(s * 1000 == r2 - r3);
    assert(mi < 60) by {
        lemma_multiply_divide_lt(r1, 60000, 60);
    }
    assert(s < 60) by {
        lemma_multiply_divide_lt(r2, 1000, 60);
    }
}

/// `to_milliseconds`: flattens a timestamp to its millisecond count.
pub fn time_to_milliseconds(time: Time) -> (r: i32)
    requires
        time_wf(time),
    ensures
        r as int == time_millis(time),
{
    (time.hours * 3600000) + (time.minutes * 60000) + (time.seconds * 1000) + time.milliseconds
}

/// `from_milliseconds`: expands a non-negative millisecond count to a
/// normalized timestamp; exactly inverts `time_to_milliseconds`.
pub fn milliseconds_to_time(milliseconds: i32) -> (t: Time)
    requires
        0 <= milliseconds,
    ensures
        t == time_from_millis(milliseconds as int),
        time_millis(t) == milliseconds as int,
        time_wf(t),
{
    proof {
        lemma_millis_round_trip(milliseconds as int);
    }
    let hours = milliseconds / 3600000;
    let minutes = (milliseconds % 3600000) / 60000;
    let seconds = ((milliseconds % 3600000) % 60000) / 1000;
    let milliseconds = ((milliseconds % 3600000) % 60000) % 1000;

    Time { hours, minutes, seconds, milliseconds }
}

/// A pair of all-zero timestamps, the parser's placeholder span.
pub fn empty_time() -> (r: (Time, Time))
    ensures
        r.0 == zero_time(),
        r.1 == zero_time(),
{
    (
        Time { hours: 0, minutes: 0, seconds: 0, milliseconds: 0 },
        Time { hours: 0, minutes: 0, seconds: 0, milliseconds: 0 },
    )
}

/// Two spans overlap when the second one's start or end falls within the
/// first one, boundaries included.
pub open spec fn spans_overlap(current: (Time, Time), next: (Time, Time)) -> bool {
    ||| time_millis(current.0) <= time_millis(next.0) <= time_millis(current.1)
    ||| time_millis(current.0) <= time_millis(next.1) <= time_millis(current.1)
}

/// Decides whether two display windows share at least one instant,
/// boundary instants included.
pub fn has_overlap_times(current_times: (Time, Time), next_times: (Time, Time)) -> (r: bool)
    requires
        time_wf(current_times.0),
        time_wf(current_times.1),
        time_wf(next_times.0),
        time_wf(next_times.1),
    ensures
        r == spans_overlap(current_times, next_times),
{
    let c_s_t = time_to_milliseconds(current_times.0);
    let c_e_t = time_to_milliseconds(current_times.1);
    let n_s_t = time_to_milliseconds(next_times.0);
    let n_e_t = time_to_milliseconds(next_times.1);

    (c_s_t <= n_s_t && n_s_t <= c_e_t) || (c_s_t <= n_e_t && n_e_t <= c_e_t)
}

/// The smaller of two millisecond counts.
pub open spec fn min_int(a: int, b: int) -> int {
    if a <= b {
        a
    } else {
        b
    }
}

/// The larger of two millisecond counts.
pub open spec fn max_int(a: int, b: int) -> int {
    if a >= b {
        a
    } else {
        b
    }
}

/// The merged span of two spans: from the earlier start to the later end,
/// both normalized through millisecond space.
pub open spec fn merged_span(current: (Time, Time), next: (Time, Time)) -> (Time, Time) {
    (
        time_from_millis(min_int(time_millis(current.0), time_millis(next.0))),
        time_from_millis(max_int(time_millis(current.1), time_millis(next.1))),
    )
}

/// Builds the span that covers two spans: the earlier start and the later
/// end, converted through millisecond space.
pub fn get_min_max_times(current_times: (Time, Time), next_times: (Time, Time)) -> (r: (
    Time,
    Time,
))
    requires
        time_wf(current_times.0),
        time_wf(current_times.1),
        time_wf(next_times.0),
        time_wf(next_times.1),
    ensures
        r == merged_span(current_times, next_times),
        time_wf(r.0),
        time_wf(r.1),
{
    let current_start_time_in_milliseconds = time_to_milliseconds(current_times.0);
    let current_end_time_in_milliseconds = time_to_milliseconds(current_times.1);

    let next_start_time_in_milliseconds = time_to_milliseconds(next_times.0);
    let next_end_time_in_milliseconds = time_to_milliseconds(next_times.1);

    let min_start_time_in_milliseconds = if current_start_time_in_milliseconds
        <= next_start_time_in_milliseconds {
        current_start_time_in_milliseconds
    } else {
        next_start_time_in_milliseconds
    };
    let max_end_time_in_milliseconds = if current_end_time_in_milliseconds
        >= next_end_time_in_milliseconds {
        current_end_time_in_milliseconds
    } else {
        next_end_time_in_milliseconds
    };

    let min_start_time = milliseconds_to_time(min_start_time_in_milliseconds);
    let max_end_time = milliseconds_to_time(max_end_time_in_milliseconds);

    (min_start_time, max_end_time)
}

} // verus!

verus! {

// ---------------------------------------------------------------------------
// Timestamp text: `HH:MM:SS,mmm`
// ---------------------------------------------------------------------------

/// A malformed timestamp or span: a missing separator or a field that is
/// not a non-negative integer fitting the time model.
#[derive(Clone, Copy, PartialEq, Eq, Structural, Debug)]
pub struct FormatError;

/// A well-formed numeric field: non-empty and all decimal digits.
pub open spec fn numeric_field(s: Seq<char>) -> bool {
    s.len() >= 1 && crate::text::all_digits(s)
}

/// The timestamp a text denotes, if any. The text is split on the first
/// comma, the part before it on colons; the first three colon fields are
/// hours, minutes and seconds, the field after the comma is milliseconds;
/// further fields are ignored. The result is `None` when the comma field
/// or a third colon field is missing, when one of the four fields is not
/// a non-negative integer, or when the flat millisecond count does not
/// fit an `i32`.
pub open spec fn parse_timestamp_spec(s: Seq<char>) -> Option<Time> {
    let comma_parts = crate::text::split_on_char(s, ',');
    if comma_parts.len() < 2 {
        None
    } else {
        let hms = crate::text::split_on_char(comma_parts[0], ':');
        if hms.len() < 3 {
            None
        } else if numeric_field(hms[0]) && numeric_field(hms[1]) && numeric_field(hms[2])
            && numeric_field(comma_parts[1]) {
            let h = crate::text::digits_value(hms[0]);
            let mi = crate::text::digits_value(hms[1]);
            let se = crate::text::digits_value(hms[2]);
            let ms = crate::text::digits_value(comma_parts[1]);
            if h * 3600000 + mi * 60000 + se * 1000 + ms <= i32::MAX {
                Some(
                    Time {
                        hours: h as i32,
                        minutes: mi as i32,
                        seconds: se as i32,
                        milliseconds: ms as i32,
                    },
                )
            } else {
                None
            }
        } else {
            None
        }
    }
}

/// Parses a `HH:MM:SS,mmm` timestamp into a `Time`.
pub fn convert_time_to_struct(time: String) -> (r: Result<Time, FormatError>)
    ensures
        match r {
            Ok(t) => parse_timestamp_spec(time@) == Some(t) && time_wf(t),
            Err(_) => parse_timestamp_spec(time@) is None,
        },
{
    let comma_parts = crate::text::str_split_char(time.as_str(), ',');
    if comma_parts.len() < 2 {
        return Err(FormatError);
    }
    let hms = crate::text::str_split_char(comma_parts[0].as_str(), ':');
    if hms.len() < 3 {
        return Err(FormatError);
    }
    let ghost sh = hms.deep_view()[0];
    let ghost sm = hms.deep_view()[1];
    let ghost ss = hms.deep_view()[2];
    let ghost sms = comma_parts.deep_view()[1];
    proof {
        if crate::text::all_digits(sh) {
            crate::text::lemma_digits_value_nonneg(sh);
        }
        if crate::text::all_digits(sm) {
            crate::text::lemma_digits_value_nonneg(sm);
        }
        if crate::text::all_digits(ss) {
            crate::text::lemma_digits_value_nonneg(ss);
        }
        if crate::text::all_digits(sms) {
            crate::text::lemma_digits_value_nonneg(sms);
        }
    }
    let hours = match crate::text::parse_digits(hms[0].as_str()) {
        Some(v) => v,
        None => {
            return Err(FormatError);
        },
    };
    let minutes = match crate::text::parse_digits(hms[1].as_str()) {
        Some(v) => v,
        None => {
            return Err(FormatError);
        },
    };
    let seconds = match crate::text::parse_digits(hms[2].as_str()) {
        Some(v) => v,
        None => {
            return Err(FormatError);
        },
    };
    let milliseconds = match crate::text::parse_digits(comma_parts[1].as_str()) {
        Some(v) => v,
        None => {
            return Err(FormatError);
        },
    };
    let total: i64 = hours as i64 * 3600000 + minutes as i64 * 60000 + seconds as i64 * 1000
        + milliseconds as i64;
    if total > 2147483647 {
        return Err(FormatError);
    }
    Ok(Time { hours, minutes, seconds, milliseconds })
}

/// The canonical text of a timestamp: hours, minutes and seconds zero-
/// padded to two digits, milliseconds to three; larger values widen their
/// field.
pub open spec fn format_timestamp_spec(t: Time) -> Seq<char> {
    crate::text::pad_zeros(crate::text::dec_digits(t.hours as int), 2) + seq![':']
        + crate::text::pad_zeros(crate::text::dec_digits(t.minutes as int), 2) + seq![':']
        + crate::text::pad_zeros(crate::text::dec_digits(t.seconds as int), 2) + seq![',']
        + crate::text::pad_zeros(crate::text::dec_digits(t.milliseconds as int), 3)
}

/// Renders a timestamp as `HH:MM:SS,mmm`.
pub fn format_timestamp(time: &Time) -> (r: String)
    requires
        0 <= time.hours,
        0 <= time.minutes,
        0 <= time.seconds,
        0 <= time.milliseconds,
    ensures
        r@ == format_timestamp_spec(*time),
{
    let mut out = crate::text::format_number(time.hours, 2);
    crate::text::push_char(&mut out, ':');
    let minutes = crate::text::format_number(time.minutes, 2);
    out.append(minutes.as_str());
    crate::text::push_char(&mut out, ':');
    let seconds = crate::text::format_number(time.seconds, 2);
    out.append(seconds.as_str());
    crate::text::push_char(&mut out, ',');
    let milliseconds = crate::text::format_number(time.milliseconds, 3);
    out.append(milliseconds.as_str());
    proof {
        assert(out@ =~= format_timestamp_spec(*time));
    }
    out
}

/// Every character of a formatted timestamp is a digit, a colon or a
/// comma; in particular the given character does not occur.
pub proof fn lemma_format_timestamp_no_char(t: Time, c: char)
    requires
        0 <= t.hours,
        0 <= t.minutes,
        0 <= t.seconds,
        0 <= t.milliseconds,
        !crate::text::is_digit_char(c),
        c != ':',
        c != ',',
    ensures
        crate::text::no_char(format_timestamp_spec(t), c),
{
    let hf = crate::text::pad_zeros(crate::text::dec_digits(t.hours as int), 2);
    let mf = crate::text::pad_zeros(crate::text::dec_digits(t.minutes as int), 2);
    let sf = crate::text::pad_zeros(crate::text::dec_digits(t.seconds as int), 2);
    let msf = crate::text::pad_zeros(crate::text::dec_digits(t.milliseconds as int), 3);
    crate::text::lemma_pad_zeros(t.hours as int, 2);
    crate::text::lemma_pad_zeros(t.minutes as int, 2);
    crate::text::lemma_pad_zeros(t.seconds as int, 2);
    crate::text::lemma_pad_zeros(t.milliseconds as int, 3);
    crate::text::lemma_digits_no_char(hf, c);
    crate::text::lemma_digits_no_char(mf, c);
    crate::text::lemma_digits_no_char(sf, c);
    crate::text::lemma_digits_no_char(msf, c);
    crate::text::lemma_no_char_concat(hf, seq![':'], c);
    crate::text::lemma_no_char_concat(hf + seq![':'], mf, c);
    crate::text::lemma_no_char_concat(hf + seq![':'] + mf, seq![':'], c);
    crate::text::lemma_no_char_concat(hf + seq![':'] + mf + seq![':'], sf, c);
    crate::text::lemma_no_char_concat(hf + seq![':'] + mf + seq![':'] + sf, seq![','], c);
    crate::text::lemma_no_char_concat(hf + seq![':'] + mf + seq![':'] + sf + seq![','], msf, c);
}

/// Formatting a well-formed timestamp and parsing the text back returns
/// the same timestamp.
pub proof fn lemma_format_parse_timestamp(t: Time)
    requires
        time_wf(t),
    ensures
        parse_timestamp_spec(format_timestamp_spec(t)) == Some(t),
{
    let hf = crate::text::pad_zeros(crate::text::dec_digits(t.hours as int), 2);
    let mf = crate::text::pad_zeros(crate::text::dec_digits(t.minutes as int), 2);
    let sf = crate::text::pad_zeros(crate::text::dec_digits(t.seconds as int), 2);
    let msf = crate::text::pad_zeros(crate::text::dec_digits(t.milliseconds as int), 3);
    crate::text::lemma_pad_zeros(t.hours as int, 2);
    crate::text::lemma_pad_zeros(t.minutes as int, 2);
    crate::text::lemma_pad_zeros(t.seconds as int, 2);
    crate::text::lemma_pad_zeros(t.milliseconds as int, 3);
    let f = format_timestamp_spec(t);
    let before = hf + seq![':'] + mf + seq![':'] + sf;
    crate::text::lemma_digits_no_char(hf, ',');
    crate::text::lemma_digits_no_char(mf, ',');
    crate::text::lemma_digits_no_char(sf, ',');
    crate::text::lemma_digits_no_char(msf, ',');
    crate::text::lemma_no_char_concat(hf, seq![':'], ',');
    crate::text::lemma_no_char_concat(hf + seq![':'], mf, ',');
    crate::text::lemma_no_char_concat(hf + seq![':'] + mf, seq![':'], ',');
    crate::text::lemma_no_char_concat(hf + seq![':'] + mf + seq![':'], sf, ',');
    assert(f =~= before + seq![','] + msf);
    crate::text::lemma_split_char_prefix(before, ',', msf);
    crate::text::lemma_split_char_none(msf, ',');
    let comma_parts = crate::text::split_on_char(f, ',');
    assert(comma_parts == seq![before] + seq![msf]);
    assert(comma_parts.len() == 2);
    assert(comma_parts[0] == before);
    assert(comma_parts[1] == msf);

    crate::text::lemma_digits_no_char(hf, ':');
    crate::text::lemma_digits_no_char(mf, ':');
    crate::text::lemma_digits_no_char(sf, ':');
    assert(before =~= hf + seq![':'] + (mf + seq![':'] + sf));
    crate::text::lemma_split_char_prefix(hf, ':', mf + seq![':'] + sf);
    crate::text::lemma_split_char_prefix(mf, ':', sf);
    crate::text::lemma_split_char_none(sf, ':');
    let hms = crate::text::split_on_char(before, ':');
    assert(hms == seq![hf] + (seq![mf] + seq![sf]));
    assert(hms.len() == 3);
    assert(hms[0] == hf);
    assert(hms[1] == mf);
    assert(hms[2] == sf);
}

// ---------------------------------------------------------------------------
// Span text: `HH:MM:SS,mmm --> HH:MM:SS,mmm`
// ---------------------------------------------------------------------------

/// The literal separator between the two timestamps of a span line.
pub open spec fn arrow_sep() -> Seq<char> {
    seq![' ', '-', '-', '>', ' ']
}

/// The span a line denotes, if any: the line must split on the arrow
/// separator into exactly two timestamps.
pub open spec fn parse_span_spec(s: Seq<char>) -> Option<(Time, Time)> {
    let parts = crate::text::split_on_seq(s, arrow_sep());
    if parts.len() != 2 {
        None
    } else {
        match (parse_timestamp_spec(parts[0]), parse_timestamp_spec(parts[1])) {
            (Some(a), Some(b)) => Some((a, b)),
            _ => None,
        }
    }
}

/// Parses a span line into its start and end timestamps.
pub fn convert_line_to_times(line: String) -> (r: Result<(Time, Time), FormatError>)
    ensures
        match r {
            Ok(ts) => parse_span_spec(line@) == Some(ts) && time_wf(ts.0) && time_wf(ts.1),
            Err(_) => parse_span_spec(line@) is None,
        },
{
    let arrow = " --> ";
    proof {
        reveal_strlit(" --> ");
        assert(arrow@ =~= arrow_sep());
    }
    let parts = crate::text::str_split_str(line.as_str(), arrow);
    if parts.len() != 2 {
        return Err(FormatError);
    }
    let start_time = match convert_time_to_struct(parts[0].clone()) {
        Ok(t) => t,
        Err(e) => {
            return Err(e);
        },
    };
    let end_time = match convert_time_to_struct(parts[1].clone()) {
        Ok(t) => t,
        Err(e) => {
            return Err(e);
        },
    };
    Ok((start_time, end_time))
}

/// The canonical text of a span: both timestamps joined by the arrow.
pub open spec fn format_span_spec(a: Time, b: Time) -> Seq<char> {
    format_timestamp_spec(a) + arrow_sep() + format_timestamp_spec(b)
}

/// Formatting a well-formed span and parsing the line back returns the
/// same pair of timestamps.
pub proof fn lemma_format_parse_span(a: Time, b: Time)
    requires
        time_wf(a),
        time_wf(b),
    ensures
        parse_span_spec(format_span_spec(a, b)) == Some((a, b)),
{
    let fa = format_timestamp_spec(a);
    let fb = format_timestamp_spec(b);
    let s = format_span_spec(a, b);
    lemma_format_timestamp_no_char(a, ' ');
    lemma_format_timestamp_no_char(b, ' ');
    assert(forall|i: int|
        0 <= i < fa.len() ==> !crate::text::matches_at(s, i, #[trigger] crate::text::seq_id(
            arrow_sep(),
        ))) by {
        assert forall|i: int|
            0 <= i < fa.len() && crate::text::matches_at(
                s,
                i,
                crate::text::seq_id(arrow_sep()),
            ) implies false by {
            assert(s.subrange(i, i + 5)[0] == s[i]);
            assert(s[i] == fa[i]);
            assert(fa[i] == ' ');
        }
    }
    crate::text::lemma_split_seq_prefix(fa, arrow_sep(), fb);
    assert(forall|i: int|
        0 <= i < fb.len() ==> !crate::text::matches_at(fb, i, #[trigger] crate::text::seq_id(
            arrow_sep(),
        ))) by {
        assert forall|i: int|
            0 <= i < fb.len() && crate::text::matches_at(
                fb,
                i,
                crate::text::seq_id(arrow_sep()),
            ) implies false by {
            assert(fb.subrange(i, i + 5)[0] == fb[i]);
            assert(fb[i] == ' ');
        }
    }
    crate::text::lemma_split_seq_none(fb, arrow_sep());
    let parts = crate::text::split_on_seq(s, arrow_sep());
    assert(parts == seq![fa] + seq![fb]);
    assert(parts.len() == 2);
    assert(parts[0] == fa);
    assert(parts[1] == fb);
    lemma_format_parse_timestamp(a);
    lemma_format_parse_timestamp(b);
}

} // verus!
