//! Character-sequence utilities: decimal digits, substring search, splitting
//! and tag removal, shared by the time model and the subtitle engine.

use vstd::arithmetic::div_mod::{lemma_fundamental_div_mod, lemma_mod_bound};
use vstd::prelude::*;
use vstd::string::StrSliceExecFns;

verus! {

/// An ASCII decimal digit.
pub open spec fn is_digit_char(c: char) -> bool {
    48 <= c as u32 <= 57
}

/// The numeric value of an ASCII decimal digit.
pub open spec fn digit_value(c: char) -> int {
    c as u32 - 48
}

/// The ASCII character for a digit value in `0..10`.
pub open spec fn char_of_digit(v: int) -> char {
    ((48 + v) as u8) as char
}

/// Every character of `s` is an ASCII decimal digit.
pub open spec fn all_digits(s: Seq<char>) -> bool {
    forall|i: int| 0 <= i < s.len() ==> is_digit_char(#[trigger] s[i])
}

/// The non-negative integer a digit string denotes, most significant
/// digit first.
pub open spec fn digits_value(s: Seq<char>) -> int
    decreases s.len(),
{
    if s.len() == 0 {
        0
    } else {
        digits_value(s.drop_last()) * 10 + digit_value(s.last())
    }
}

/// The shortest decimal rendering of a non-negative integer.
pub open spec fn dec_digits(n: int) -> Seq<char>
    recommends
        0 <= n,
    decreases n,
{
    if n < 10 {
        seq![char_of_digit(n)]
    } else {
        dec_digits(n / 10).push(char_of_digit(n % 10))
    }
}

/// A run of `k` ASCII zeros.
pub open spec fn zero_chars(k: int) -> Seq<char> {
    Seq::new(
        if 0 <= k {
            k as nat
        } else {
            0
        },
        |i: int| '0',
    )
}

/// `s` left-padded with ASCII zeros to width `w`.
pub open spec fn pad_zeros(s: Seq<char>, w: int) -> Seq<char> {
    if w <= s.len() {
        s
    } else {
        zero_chars(w - s.len()) + s
    }
}

/// The decimal rendering of a non-negative integer is a non-empty digit
/// string denoting that integer.
pub proof fn lemma_dec_digits(n: int)
    requires
        0 <= n,
    ensures
        dec_digits(n).len() >= 1,
        all_digits(dec_digits(n)),
        digits_value(dec_digits(n)) == n,
    decreases n,
{
    lemma_fundamental_div_mod(n, 10);
    lemma_mod_bound(n, 10);
    assert(digits_value(Seq::<char>::empty()) == 0);
    if n < 10 {
        let s = dec_digits(n);
        assert(s.drop_last() =~= Seq::<char>::empty());
        assert(digits_value(s) == digit_value(char_of_digit(n)));
    } else {
        lemma_dec_digits(n / 10);
        let p = dec_digits(n / 10);
        let s = dec_digits(n);
        assert(s.drop_last() =~= p);
        assert(digits_value(s) == digits_value(p) * 10 + digit_value(char_of_digit(n % 10)));
    }
}

/// A digit string denotes a non-negative integer.
pub proof fn lemma_digits_value_nonneg(s: Seq<char>)
    requires
        all_digits(s),
    ensures
        digits_value(s) >= 0,
    decreases s.len(),
{
    if s.len() > 0 {
        lemma_digits_value_nonneg(s.drop_last());
    }
}

/// A run of zeros denotes zero.
pub proof fn lemma_zeros_value(k: int)
    ensures
        digits_value(zero_chars(k)) == 0,
    decreases k,
{
    if k > 0 {
        lemma_zeros_value(k - 1);
        assert(zero_chars(k).drop_last() =~= zero_chars(k - 1));
        assert(zero_chars(k).last() == '0');
    } else {
        assert(zero_chars(k) =~= Seq::<char>::empty());
    }
}

/// Leading zeros do not change the integer a digit string denotes.
pub proof fn lemma_leading_zeros_value(k: int, s: Seq<char>)
    requires
        0 <= k,
    ensures
        digits_value(zero_chars(k) + s) == digits_value(s),
    decreases s.len(),
{
    if s.len() == 0 {
        assert(zero_chars(k) + s =~= zero_chars(k));
        lemma_zeros_value(k);
    } else {
        lemma_leading_zeros_value(k, s.drop_last());
        assert((zero_chars(k) + s).drop_last() =~= zero_chars(k) + s.drop_last());
        assert((zero_chars(k) + s).last() == s.last());
    }
}

/// A zero-padded decimal rendering is still a digit string denoting the
/// same integer.
pub proof fn lemma_pad_zeros(n: int, w: int)
    requires
        0 <= n,
    ensures
        all_digits(pad_zeros(dec_digits(n), w)),
        digits_value(pad_zeros(dec_digits(n), w)) == n,
        pad_zeros(dec_digits(n), w).len() >= w,
        pad_zeros(dec_digits(n), w).len() >= 1,
{
    lemma_dec_digits(n);
    let s = dec_digits(n);
    if w > s.len() {
        lemma_leading_zeros_value(w - s.len(), s);
    }
}

/// Relies on `String::push`: appends exactly the given character.
#[verifier::external_body]
pub(crate) fn push_char(s: &mut String, c: char)
    ensures
        final(s)@ == old(s)@.push(c),
{
    s.push(c);
}

/// The digit characters of the byte digits `ds`, least significant first,
/// read back in most-significant-first order.
pub open spec fn rev_digit_chars(ds: Seq<u8>) -> Seq<char> {
    Seq::new(ds.len(), |i: int| char_of_digit(ds[ds.len() - 1 - i] as int))
}

/// Renders a non-negative integer in decimal, left-padded with zeros to
/// the given width.
pub fn format_number(n: i32, width: usize) -> (r: String)
    requires
        0 <= n,
    ensures
        r@ == pad_zeros(dec_digits(n as int), width as int),
{
    let mut digits: Vec<u8> = Vec::new();
    let mut cur: i32 = n;
    proof {
        lemma_fundamental_div_mod(cur as int, 10);
        lemma_mod_bound(cur as int, 10);
    }
    digits.push((cur % 10) as u8);
    cur = cur / 10;
    proof {
        assert(rev_digit_chars(digits@) =~= seq![char_of_digit(n as int % 10)]);
        if n < 10 {
            assert(dec_digits(n as int) =~= rev_digit_chars(digits@));
        } else {
            assert(dec_digits(n as int) =~= dec_digits(cur as int) + rev_digit_chars(digits@));
        }
    }
    while cur > 0
        invariant
            0 <= cur,
            digits@.len() >= 1,
            forall|i: int| 0 <= i < digits@.len() ==> digits@[i] < 10,
            cur > 0 ==> dec_digits(n as int) =~= dec_digits(cur as int) + rev_digit_chars(
                digits@,
            ),
            cur == 0 ==> dec_digits(n as int) =~= rev_digit_chars(digits@),
        decreases cur,
    {
        proof {
            lemma_fundamental_div_mod(cur as int, 10);
            lemma_mod_bound(cur as int, 10);
        }
        let ghost prev = cur as int;
        let ghost old_digits = digits@;
        digits.push((cur % 10) as u8);
        cur = cur / 10;
        proof {
            assert(rev_digit_chars(digits@) =~= seq![char_of_digit(prev % 10)] + rev_digit_chars(
                old_digits,
            ));
            if prev < 10 {
                assert(dec_digits(prev) =~= seq![char_of_digit(prev)]);
                assert(dec_digits(n as int) =~= rev_digit_chars(digits@));
            } else {
                assert(dec_digits(prev) =~= dec_digits(prev / 10).push(char_of_digit(prev % 10)));
                assert(dec_digits(prev / 10).push(char_of_digit(prev % 10)) + rev_digit_chars(
                    old_digits,
                ) =~= dec_digits(prev / 10) + rev_digit_chars(digits@));
            }
        }
    }
    let ghost rendered = dec_digits(n as int);
    assert(rendered == rev_digit_chars(digits@));
    assert(rendered.len() == digits@.len());

    let mut out = String::new();
    let mut k: usize = 0;
    let pad: usize = if digits.len() >= width {
        0
    } else {
        width - digits.len()
    };
    while k < pad
        invariant
            k <= pad,
            out@ =~= zero_chars(k as int),
        decreases pad - k,
    {
        push_char(&mut out, '0');
        proof {
            assert(out@ =~= zero_chars(k as int + 1));
        }
        k = k + 1;
    }
    let mut j: usize = 0;
    while j < digits.len()
        invariant
            j <= digits@.len(),
            digits@.len() >= 1,
            rendered == rev_digit_chars(digits@),
            forall|i: int| 0 <= i < digits@.len() ==> digits@[i] < 10,
            out@ =~= zero_chars(pad as int) + rendered.take(j as int),
        decreases digits@.len() - j,
    {
        let d: u8 = digits[digits.len() - 1 - j];
        assert(char_of_digit(d as int) == rendered[j as int]);
        push_char(&mut out, (48 + d) as char);
        proof {
            assert(out@ =~= zero_chars(pad as int) + rendered.take(j as int + 1));
        }
        j = j + 1;
    }
    proof {
        assert(rendered.take(digits@.len() as int) =~= rendered);
        if width <= rendered.len() {
            assert(zero_chars(0) + rendered =~= rendered);
        }
        assert(out@ =~= pad_zeros(dec_digits(n as int), width as int));
    }
    out
}

} // verus!

verus! {

// ---------------------------------------------------------------------------
// Substring search
// ---------------------------------------------------------------------------

/// The pattern `t` occurs in `s` starting at position `i`.
pub open spec fn matches_at(s: Seq<char>, i: int, t: Seq<char>) -> bool {
    0 <= i && i + t.len() <= s.len() && s.subrange(i, i + t.len()) == t
}

/// `s` starts with the pattern `t`.
pub open spec fn begins_with(s: Seq<char>, t: Seq<char>) -> bool {
    matches_at(s, 0, t)
}

/// The pattern `t` occurs somewhere in `s`.
pub open spec fn contains_seq(s: Seq<char>, t: Seq<char>) -> bool {
    exists|i: int| matches_at(s, i, t)
}

/// Occurrences in a suffix are occurrences in the whole, shifted.
pub proof fn lemma_matches_at_skip(s: Seq<char>, k: int, i: int, t: Seq<char>)
    requires
        0 <= k <= s.len(),
        0 <= i,
    ensures
        matches_at(s.skip(k), i, t) == matches_at(s, k + i, t),
{
    if i + t.len() <= s.len() - k {
        assert(s.skip(k).subrange(i, i + t.len()) =~= s.subrange(k + i, k + i + t.len()));
    }
}

/// Decides whether the pattern `t` occurs in `s` at position `i`.
pub fn str_matches_at(s: &str, t: &str, i: usize) -> (r: bool)
    requires
        i <= s@.len(),
    ensures
        r == matches_at(s@, i as int, t@),
{
    let n = t.unicode_len();
    let sn = s.unicode_len();
    if n > sn - i {
        return false;
    }
    let mut j: usize = 0;
    while j < n
        invariant
            j <= n,
            n == t@.len(),
            i + n <= s@.len(),
            s@.len() <= usize::MAX,
            forall|k: int| 0 <= k < j ==> s@[i + k] == t@[k],
        decreases n - j,
    {
        if s.get_char(i + j) != t.get_char(j) {
            proof {
                assert(s@.subrange(i as int, i + n) != t@) by {
                    assert(s@.subrange(i as int, i + n)[j as int] == s@[i + j]);
                }
            }
            return false;
        }
        j = j + 1;
    }
    proof {
        assert(s@.subrange(i as int, i + n) =~= t@);
    }
    true
}

// ---------------------------------------------------------------------------
// Splitting on a separator character
// ---------------------------------------------------------------------------

/// The fields of `s` between occurrences of `sep`, leftmost first; always
/// at least one field, and empty fields are kept.
pub open spec fn split_on_char(s: Seq<char>, sep: char) -> Seq<Seq<char>>
    decreases s.len(),
{
    if s.len() == 0 {
        seq![Seq::<char>::empty()]
    } else if s[0] == sep {
        seq![Seq::<char>::empty()] + split_on_char(s.skip(1), sep)
    } else {
        let rest = split_on_char(s.skip(1), sep);
        seq![seq![s[0]] + rest[0]] + rest.skip(1)
    }
}

pub proof fn lemma_split_on_char_len(s: Seq<char>, sep: char)
    ensures
        split_on_char(s, sep).len() >= 1,
    decreases s.len(),
{
    if s.len() > 0 {
        lemma_split_on_char_len(s.skip(1), sep);
    }
}

/// Splitting a separator-free string yields that one field.
pub proof fn lemma_split_char_none(x: Seq<char>, sep: char)
    requires
        forall|i: int| 0 <= i < x.len() ==> x[i] != sep,
    ensures
        split_on_char(x, sep) == seq![x],
    decreases x.len(),
{
    if x.len() == 0 {
        assert(seq![Seq::<char>::empty()] =~~= seq![x]);
    } else {
        lemma_split_char_none(x.skip(1), sep);
        assert(seq![x[0]] + x.skip(1) =~= x);
        assert(split_on_char(x, sep) =~~= seq![x]);
    }
}

/// Splitting `x ++ sep ++ b`, with `x` separator-free, yields `x` and then
/// the fields of `b`.
pub proof fn lemma_split_char_prefix(x: Seq<char>, sep: char, b: Seq<char>)
    requires
        forall|i: int| 0 <= i < x.len() ==> x[i] != sep,
    ensures
        split_on_char(x + seq![sep] + b, sep) == seq![x] + split_on_char(b, sep),
    decreases x.len(),
{
    let s = x + seq![sep] + b;
    if x.len() == 0 {
        assert(s[0] == sep);
        assert(s.skip(1) =~= b);
        assert(split_on_char(s, sep) =~~= seq![x] + split_on_char(b, sep));
    } else {
        assert(s[0] == x[0]);
        assert(s.skip(1) =~= x.skip(1) + seq![sep] + b);
        lemma_split_char_prefix(x.skip(1), sep, b);
        let rest = split_on_char(s.skip(1), sep);
        lemma_split_on_char_len(b, sep);
        assert(rest[0] == x.skip(1));
        assert(seq![s[0]] + rest[0] =~= x);
        assert(rest.skip(1) =~= split_on_char(b, sep));
        assert(split_on_char(s, sep) =~~= seq![x] + split_on_char(b, sep));
    }
}

/// One field of `ss` widened on the left with `p`.
pub open spec fn prepend_first(p: Seq<char>, ss: Seq<Seq<char>>) -> Seq<Seq<char>> {
    seq![p + ss[0]] + ss.skip(1)
}

/// Splits `s` into its fields between occurrences of `sep`.
pub fn str_split_char(s: &str, sep: char) -> (r: Vec<String>)
    ensures
        r.deep_view() == split_on_char(s@, sep),
        r@.len() >= 1,
{
    let n = s.unicode_len();
    let mut out: Vec<String> = Vec::new();
    let mut cur = String::new();
    let mut i: usize = 0;
    proof {
        assert(s@.skip(0) =~= s@);
        assert(out.deep_view() + prepend_first(cur@, split_on_char(s@, sep)) =~~= split_on_char(
            s@,
            sep,
        )) by {
            lemma_split_on_char_len(s@, sep);
            assert(prepend_first(cur@, split_on_char(s@, sep)) =~~= split_on_char(s@, sep));
        }
    }
    while i < n
        invariant
            i <= n,
            n == s@.len(),
            split_on_char(s@, sep) == out.deep_view() + prepend_first(
                cur@,
                split_on_char(s@.skip(i as int), sep),
            ),
        decreases n - i,
    {
        let ghost suffix = s@.skip(i as int);
        let ghost rest = split_on_char(s@.skip(i as int + 1), sep);
        proof {
            lemma_split_on_char_len(s@.skip(i as int + 1), sep);
            assert(suffix.skip(1) =~= s@.skip(i as int + 1));
            assert(suffix[0] == s@[i as int]);
        }
        let c = s.get_char(i);
        if c == sep {
            let ghost prev = cur@;
            let ghost prev_out = out.deep_view();
            out.push(cur);
            cur = String::new();
            proof {
                assert(out.deep_view() =~~= prev_out.push(prev));
                assert(prepend_first(prev, split_on_char(suffix, sep)) =~~= seq![prev] + rest);
                assert(prepend_first(cur@, rest) =~~= rest);
                assert(out.deep_view() + prepend_first(cur@, rest) =~~= prev_out + (seq![prev]
                    + rest));
            }
        } else {
            let ghost prev = cur@;
            push_char(&mut cur, c);
            proof {
                assert(prepend_first(prev, split_on_char(suffix, sep)) =~~= prepend_first(
                    cur@,
                    rest,
                )) by {
                    assert(prev + (seq![suffix[0]] + rest[0]) =~= cur@ + rest[0]);
                    assert((seq![seq![suffix[0]] + rest[0]] + rest.skip(1)).skip(1) =~~= rest.skip(
                        1,
                    ));
                }
            }
        }
        i = i + 1;
    }
    proof {
        assert(s@.skip(n as int) =~= Seq::<char>::empty());
        assert(prepend_first(cur@, split_on_char(s@.skip(n as int), sep)) =~~= seq![cur@]);
    }
    let ghost prev_out = out.deep_view();
    let ghost last = cur@;
    out.push(cur);
    proof {
        assert(out.deep_view() =~~= prev_out.push(last));
        assert(prev_out + seq![last] =~~= prev_out.push(last));
    }
    out
}

} // verus!

verus! {

// ---------------------------------------------------------------------------
// Splitting into lines
// ---------------------------------------------------------------------------

/// The lines of `s`: the fields between newline characters, except that a
/// trailing newline does not open a final empty line.
pub open spec fn split_lines(s: Seq<char>) -> Seq<Seq<char>> {
    let parts = split_on_char(s, '\n');
    if parts.last().len() == 0 {
        parts.drop_last()
    } else {
        parts
    }
}

/// `s` holds no newline character.
pub open spec fn no_newline(s: Seq<char>) -> bool {
    forall|i: int| 0 <= i < s.len() ==> s[i] != '\n'
}

/// There are no lines in an empty text.
pub proof fn lemma_split_lines_empty()
    ensures
        split_lines(Seq::<char>::empty()) == Seq::<Seq<char>>::empty(),
{
    let parts = split_on_char(Seq::<char>::empty(), '\n');
    assert(parts.drop_last() =~~= Seq::<Seq<char>>::empty());
}

/// A newline-terminated, newline-free line opens the line list; the rest
/// of the text contributes the remaining lines.
pub proof fn lemma_split_lines_line(x: Seq<char>, b: Seq<char>)
    requires
        no_newline(x),
    ensures
        split_lines(x + seq!['\n'] + b) == seq![x] + split_lines(b),
{
    lemma_split_char_prefix(x, '\n', b);
    lemma_split_on_char_len(b, '\n');
    let parts_b = split_on_char(b, '\n');
    let parts = split_on_char(x + seq!['\n'] + b, '\n');
    assert(parts == seq![x] + parts_b);
    assert(parts.last() == parts_b.last());
    if parts_b.last().len() == 0 {
        assert(parts.drop_last() =~~= seq![x] + parts_b.drop_last());
    }
}

/// Splits a text into its lines; a trailing newline opens no final empty
/// line.
pub fn str_split_lines(s: &str) -> (r: Vec<String>)
    ensures
        r.deep_view() == split_lines(s@),
{
    let mut parts = str_split_char(s, '\n');
    let last_empty = parts[parts.len() - 1].as_str().is_empty();
    if last_empty {
        let ghost prev = parts.deep_view();
        parts.pop();
        proof {
            assert(parts.deep_view() =~~= prev.drop_last());
        }
    }
    parts
}

// ---------------------------------------------------------------------------
// Splitting on a separator string
// ---------------------------------------------------------------------------

/// The fields of `s` between leftmost, non-overlapping occurrences of the
/// separator string `t`; always at least one field.
pub open spec fn split_on_seq(s: Seq<char>, t: Seq<char>) -> Seq<Seq<char>>
    decreases s.len(),
{
    if t.len() == 0 || s.len() == 0 {
        seq![s]
    } else if begins_with(s, t) {
        seq![Seq::<char>::empty()] + split_on_seq(s.skip(t.len() as int), t)
    } else {
        let rest = split_on_seq(s.skip(1), t);
        seq![seq![s[0]] + rest[0]] + rest.skip(1)
    }
}

pub proof fn lemma_split_on_seq_len(s: Seq<char>, t: Seq<char>)
    ensures
        split_on_seq(s, t).len() >= 1,
    decreases s.len(),
{
    if t.len() != 0 && s.len() != 0 {
        if begins_with(s, t) {
            lemma_split_on_seq_len(s.skip(t.len() as int), t);
        } else {
            lemma_split_on_seq_len(s.skip(1), t);
        }
    }
}

/// Splitting a string free of the separator yields that one field.
pub proof fn lemma_split_seq_none(s: Seq<char>, t: Seq<char>)
    requires
        t.len() >= 1,
        forall|i: int| 0 <= i < s.len() ==> !matches_at(s, i, #[trigger] seq_id(t)),
    ensures
        split_on_seq(s, t) == seq![s],
    decreases s.len(),
{
    if s.len() != 0 {
        assert(!begins_with(s, t)) by {
            assert(!matches_at(s, 0, seq_id(t)));
        }
        assert(forall|i: int|
            0 <= i < s.skip(1).len() ==> !matches_at(s.skip(1), i, #[trigger] seq_id(t))) by {
            assert forall|i: int|
                0 <= i < s.skip(1).len() && matches_at(
                    s.skip(1),
                    i,
                    seq_id(t),
                ) implies false by {
                lemma_matches_at_skip(s, 1, i, t);
                assert(matches_at(s, 1 + i, seq_id(t)));
            }
        }
        lemma_split_seq_none(s.skip(1), t);
        assert(seq![s[0]] + s.skip(1) =~= s);
        assert(split_on_seq(s, t) =~~= seq![s]);
    }
}

/// The identity on character sequences, used as a quantifier handle for
/// the pattern argument of `matches_at`.
pub open spec fn seq_id(t: Seq<char>) -> Seq<char> {
    t
}

/// Splitting `x ++ t ++ b` on `t`, when no occurrence of `t` starts inside
/// `x`, yields `x` and then the fields of `b`.
pub proof fn lemma_split_seq_prefix(x: Seq<char>, t: Seq<char>, b: Seq<char>)
    requires
        t.len() >= 1,
        forall|i: int| 0 <= i < x.len() ==> !matches_at(x + t + b, i, #[trigger] seq_id(t)),
    ensures
        split_on_seq(x + t + b, t) == seq![x] + split_on_seq(b, t),
    decreases x.len(),
{
    let s = x + t + b;
    if x.len() == 0 {
        assert(begins_with(s, t)) by {
            assert(s.subrange(0, t.len() as int) =~= t);
        }
        assert(s.skip(t.len() as int) =~= b);
        if b.len() == 0 {
            assert(split_on_seq(b, t) =~~= seq![Seq::<char>::empty()]);
            assert(split_on_seq(s, t) =~~= seq![x] + split_on_seq(b, t));
        } else {
            assert(split_on_seq(s, t) =~~= seq![x] + split_on_seq(b, t));
        }
    } else {
        assert(!begins_with(s, t)) by {
            assert(!matches_at(s, 0, seq_id(t)));
        }
        assert(s.skip(1) =~= x.skip(1) + t + b);
        assert(forall|i: int|
            0 <= i < x.skip(1).len() ==> !matches_at(s.skip(1), i, #[trigger] seq_id(t))) by {
            assert forall|i: int|
                0 <= i < x.skip(1).len() && matches_at(
                    s.skip(1),
                    i,
                    seq_id(t),
                ) implies false by {
                lemma_matches_at_skip(s, 1, i, t);
                assert(matches_at(s, 1 + i, seq_id(t)));
            }
        }
        lemma_split_seq_prefix(x.skip(1), t, b);
        let rest = split_on_seq(s.skip(1), t);
        lemma_split_on_seq_len(b, t);
        assert(rest == seq![x.skip(1)] + split_on_seq(b, t));
        assert(rest[0] == x.skip(1));
        assert(seq![s[0]] + rest[0] =~= x);
        assert(rest.skip(1) =~= split_on_seq(b, t));
        assert(split_on_seq(s, t) =~~= seq![x] + split_on_seq(b, t));
    }
}

/// Splits `s` into its fields between occurrences of the separator `t`.
pub fn str_split_str(s: &str, t: &str) -> (r: Vec<String>)
    requires
        t@.len() >= 1,
    ensures
        r.deep_view() == split_on_seq(s@, t@),
        r@.len() >= 1,
{
    let n = s.unicode_len();
    let tn = t.unicode_len();
    let mut out: Vec<String> = Vec::new();
    let mut cur = String::new();
    let mut i: usize = 0;
    proof {
        assert(s@.skip(0) =~= s@);
        lemma_split_on_seq_len(s@, t@);
        assert(out.deep_view() + prepend_first(cur@, split_on_seq(s@, t@)) =~~= split_on_seq(
            s@,
            t@,
        ));
    }
    while i < n
        invariant
            i <= n,
            n == s@.len(),
            tn == t@.len(),
            tn >= 1,
            split_on_seq(s@, t@) == out.deep_view() + prepend_first(
                cur@,
                split_on_seq(s@.skip(i as int), t@),
            ),
        decreases n - i,
    {
        let ghost suffix = s@.skip(i as int);
        if str_matches_at(s, t, i) {
            let ghost rest = split_on_seq(s@.skip(i as int + tn as int), t@);
            proof {
                assert(begins_with(suffix, t@)) by {
                    lemma_matches_at_skip(s@, i as int, 0, t@);
                }
                assert(suffix.skip(tn as int) =~= s@.skip(i as int + tn as int));
                lemma_split_on_seq_len(s@.skip(i as int + tn as int), t@);
            }
            let ghost prev = cur@;
            let ghost prev_out = out.deep_view();
            out.push(cur);
            cur = String::new();
            i = i + tn;
            proof {
                assert(out.deep_view() =~~= prev_out.push(prev));
                assert(prepend_first(prev, split_on_seq(suffix, t@)) =~~= seq![prev] + rest);
                assert(prepend_first(cur@, rest) =~~= rest);
                assert(prev_out.push(prev) + prepend_first(cur@, rest) =~~= prev_out + (seq![prev]
                    + rest));
            }
        } else {
            let ghost rest = split_on_seq(s@.skip(i as int + 1), t@);
            proof {
                assert(!begins_with(suffix, t@)) by {
                    lemma_matches_at_skip(s@, i as int, 0, t@);
                }
                assert(suffix.skip(1) =~= s@.skip(i as int + 1));
                lemma_split_on_seq_len(s@.skip(i as int + 1), t@);
                assert(suffix[0] == s@[i as int]);
            }
            let c = s.get_char(i);
            let ghost prev = cur@;
            push_char(&mut cur, c);
            i = i + 1;
            proof {
                assert(prepend_first(prev, split_on_seq(suffix, t@)) =~~= prepend_first(
                    cur@,
                    rest,
                )) by {
                    assert(prev + (seq![suffix[0]] + rest[0]) =~= cur@ + rest[0]);
                    assert((seq![seq![suffix[0]] + rest[0]] + rest.skip(1)).skip(1) =~~= rest.skip(
                        1,
                    ));
                }
            }
        }
    }
    proof {
        assert(s@.skip(n as int) =~= Seq::<char>::empty());
        assert(prepend_first(cur@, split_on_seq(s@.skip(n as int), t@)) =~~= seq![cur@]);
    }
    let ghost prev_out = out.deep_view();
    let ghost last = cur@;
    out.push(cur);
    proof {
        assert(out.deep_view() =~~= prev_out.push(last));
        assert(prev_out + seq![last] =~~= prev_out.push(last));
    }
    out
}

} // verus!

verus! {

// ---------------------------------------------------------------------------
// Removing every occurrence of a pattern
// ---------------------------------------------------------------------------

/// `s` with every leftmost, non-overlapping occurrence of `t` removed;
/// an empty pattern removes nothing.
pub open spec fn remove_all(s: Seq<char>, t: Seq<char>) -> Seq<char>
    decreases s.len(),
{
    if t.len() == 0 || s.len() == 0 {
        s
    } else if begins_with(s, t) {
        remove_all(s.skip(t.len() as int), t)
    } else {
        seq![s[0]] + remove_all(s.skip(1), t)
    }
}

/// Removing a pattern that does not occur changes nothing.
pub proof fn lemma_remove_all_noop(s: Seq<char>, t: Seq<char>)
    requires
        !contains_seq(s, t),
    ensures
        remove_all(s, t) == s,
    decreases s.len(),
{
    if t.len() != 0 && s.len() != 0 {
        assert(!begins_with(s, t)) by {
            if begins_with(s, t) {
                assert(matches_at(s, 0, t));
            }
        }
        assert(!contains_seq(s.skip(1), t)) by {
            if contains_seq(s.skip(1), t) {
                let i = choose|i: int| matches_at(s.skip(1), i, t);
                lemma_matches_at_skip(s, 1, i, t);
                assert(matches_at(s, 1 + i, t));
            }
        }
        lemma_remove_all_noop(s.skip(1), t);
        assert(seq![s[0]] + s.skip(1) =~= s);
    }
}

/// `s` with every occurrence of each tag removed, tags applied in order.
pub open spec fn remove_tags(s: Seq<char>, tags: Seq<Seq<char>>) -> Seq<char>
    decreases tags.len(),
{
    if tags.len() == 0 {
        s
    } else {
        remove_tags(remove_all(s, tags[0]), tags.skip(1))
    }
}

/// Applying the tags one more at the end equals removing that tag from the
/// result of the others.
pub proof fn lemma_remove_tags_snoc(s: Seq<char>, tags: Seq<Seq<char>>, t: Seq<char>)
    ensures
        remove_tags(s, tags.push(t)) == remove_all(remove_tags(s, tags), t),
    decreases tags.len(),
{
    if tags.len() == 0 {
        assert(tags.push(t)[0] == t);
        assert(tags.push(t).skip(1) =~~= Seq::<Seq<char>>::empty());
        assert(remove_tags(remove_all(s, t), Seq::<Seq<char>>::empty()) == remove_all(s, t));
        assert(remove_tags(s, tags.push(t)) == remove_tags(
            remove_all(s, tags.push(t)[0]),
            tags.push(t).skip(1),
        ));
    } else {
        assert(tags.push(t)[0] == tags[0]);
        assert(tags.push(t).skip(1) =~~= tags.skip(1).push(t));
        lemma_remove_tags_snoc(remove_all(s, tags[0]), tags.skip(1), t);
        assert(remove_tags(s, tags.push(t)) == remove_tags(
            remove_all(s, tags[0]),
            tags.skip(1).push(t),
        ));
        assert(remove_tags(s, tags) == remove_tags(remove_all(s, tags[0]), tags.skip(1)));
    }
}

/// Removing tags none of which occur changes nothing.
pub proof fn lemma_remove_tags_noop(s: Seq<char>, tags: Seq<Seq<char>>)
    requires
        forall|k: int| 0 <= k < tags.len() ==> !contains_seq(s, #[trigger] tags[k]),
    ensures
        remove_tags(s, tags) == s,
    decreases tags.len(),
{
    if tags.len() > 0 {
        lemma_remove_all_noop(s, tags[0]);
        assert(forall|k: int|
            0 <= k < tags.skip(1).len() ==> !contains_seq(s, #[trigger] tags.skip(1)[k]));
        lemma_remove_tags_noop(s, tags.skip(1));
    }
}

/// Tag removal is idempotent on any line whose simplified form holds no
/// further tag occurrence; with non-nesting tags, that is every line.
pub proof fn lemma_remove_tags_idempotent(s: Seq<char>, tags: Seq<Seq<char>>)
    requires
        forall|k: int|
            0 <= k < tags.len() ==> !contains_seq(remove_tags(s, tags), #[trigger] tags[k]),
    ensures
        remove_tags(remove_tags(s, tags), tags) == remove_tags(s, tags),
{
    lemma_remove_tags_noop(remove_tags(s, tags), tags);
}

/// Removes every occurrence of `t` from `s`.
pub fn str_remove_all(s: &str, t: &str) -> (r: String)
    requires
        t@.len() >= 1,
    ensures
        r@ == remove_all(s@, t@),
{
    let n = s.unicode_len();
    let tn = t.unicode_len();
    let mut out = String::new();
    let mut i: usize = 0;
    proof {
        assert(s@.skip(0) =~= s@);
    }
    while i < n
        invariant
            i <= n,
            n == s@.len(),
            tn == t@.len(),
            tn >= 1,
            remove_all(s@, t@) == out@ + remove_all(s@.skip(i as int), t@),
        decreases n - i,
    {
        let ghost suffix = s@.skip(i as int);
        if str_matches_at(s, t, i) {
            proof {
                assert(begins_with(suffix, t@)) by {
                    lemma_matches_at_skip(s@, i as int, 0, t@);
                }
                assert(suffix.skip(tn as int) =~= s@.skip(i as int + tn as int));
            }
            i = i + tn;
        } else {
            proof {
                assert(!begins_with(suffix, t@)) by {
                    lemma_matches_at_skip(s@, i as int, 0, t@);
                }
                assert(suffix.skip(1) =~= s@.skip(i as int + 1));
                assert(suffix[0] == s@[i as int]);
            }
            let c = s.get_char(i);
            let ghost prev = out@;
            push_char(&mut out, c);
            proof {
                assert(prev + (seq![suffix[0]] + remove_all(suffix.skip(1), t@)) =~= out@
                    + remove_all(suffix.skip(1), t@));
            }
            i = i + 1;
        }
    }
    proof {
        assert(s@.skip(n as int) =~= Seq::<char>::empty());
        assert(out@ + Seq::<char>::empty() =~= out@);
    }
    out
}

/// Removes every occurrence of each tag, tags applied in order; an empty
/// tag removes nothing.
pub fn str_remove_tags(line: &str, tags: &Vec<String>) -> (r: String)
    ensures
        r@ == remove_tags(line@, tags.deep_view()),
{
    let mut cur = line.to_owned();
    let mut k: usize = 0;
    proof {
        assert(remove_tags(line@, tags.deep_view().take(0)) == line@) by {
            assert(tags.deep_view().take(0) =~~= Seq::<Seq<char>>::empty());
        }
    }
    while k < tags.len()
        invariant
            k <= tags@.len(),
            cur@ == remove_tags(line@, tags.deep_view().take(k as int)),
        decreases tags@.len() - k,
    {
        let ghost taken = tags.deep_view().take(k as int);
        let tag = &tags[k];
        if !tag.as_str().is_empty() {
            cur = str_remove_all(cur.as_str(), tag.as_str());
        }
        proof {
            assert(tags.deep_view().take(k as int + 1) =~~= taken.push(tags@[k as int]@));
            lemma_remove_tags_snoc(line@, taken, tags@[k as int]@);
        }
        k = k + 1;
    }
    proof {
        assert(tags.deep_view().take(tags@.len() as int) =~~= tags.deep_view());
    }
    cur
}

// ---------------------------------------------------------------------------
// Reading a decimal field
// ---------------------------------------------------------------------------

/// `s` is a well-formed decimal field: non-empty, digits only, and its
/// value fits an `i32`.
pub open spec fn digit_field_ok(s: Seq<char>) -> bool {
    s.len() >= 1 && all_digits(s) && digits_value(s) <= i32::MAX
}

/// Reads a non-negative decimal integer field. Returns `None` exactly when
/// the field is empty, holds a non-digit, or denotes a value beyond `i32`.
pub fn parse_digits(s: &str) -> (r: Option<i32>)
    ensures
        r is Some <==> digit_field_ok(s@),
        r matches Some(v) ==> v as int == digits_value(s@) && 0 <= v,
{
    let n = s.unicode_len();
    if n == 0 {
        return None;
    }
    let mut acc: i64 = 0;
    let mut too_big = false;
    let mut i: usize = 0;
    proof {
        assert(s@.take(0) =~= Seq::<char>::empty());
    }
    while i < n
        invariant
            i <= n,
            n == s@.len(),
            all_digits(s@.take(i as int)),
            !too_big ==> 0 <= acc == digits_value(s@.take(i as int)) <= i32::MAX,
            too_big ==> digits_value(s@.take(i as int)) > i32::MAX,
        decreases n - i,
    {
        let c = s.get_char(i);
        let u = c as u32;
        if u < 48 || u > 57 {
            proof {
                assert(!is_digit_char(s@[i as int]));
            }
            return None;
        }
        let d = (u - 48) as i64;
        proof {
            assert(s@.take(i as int + 1).drop_last() =~= s@.take(i as int));
            assert(s@.take(i as int + 1).last() == s@[i as int]);
            assert(digits_value(s@.take(i as int + 1)) == digits_value(s@.take(i as int)) * 10
                + digit_value(s@[i as int]));
        }
        if too_big {
        } else {
            acc = acc * 10 + d;
            if acc > 2147483647 {
                too_big = true;
            }
        }
        i = i + 1;
    }
    proof {
        assert(s@.take(n as int) =~= s@);
    }
    if too_big {
        None
    } else {
        Some(acc as i32)
    }
}

} // verus!

verus! {

/// `s` holds no occurrence of the character `c`.
pub open spec fn no_char(s: Seq<char>, c: char) -> bool {
    forall|i: int| 0 <= i < s.len() ==> s[i] != c
}

/// Freedom from a character carries over concatenation.
pub proof fn lemma_no_char_concat(a: Seq<char>, b: Seq<char>, c: char)
    requires
        no_char(a, c),
        no_char(b, c),
    ensures
        no_char(a + b, c),
{
    assert forall|i: int| 0 <= i < (a + b).len() implies (a + b)[i] != c by {
        if i < a.len() {
            assert((a + b)[i] == a[i]);
        } else {
            assert((a + b)[i] == b[i - a.len()]);
        }
    }
}

/// A digit string holds no non-digit character.
pub proof fn lemma_digits_no_char(s: Seq<char>, c: char)
    requires
        all_digits(s),
        !is_digit_char(c),
    ensures
        no_char(s, c),
{
}

} // verus!

verus! {

/// No field of a split holds the separator character.
pub proof fn lemma_split_on_char_fields(s: Seq<char>, sep: char)
    ensures
        forall|k: int|
            0 <= k < split_on_char(s, sep).len() ==> no_char(
                #[trigger] split_on_char(s, sep)[k],
                sep,
            ),
    decreases s.len(),
{
    if s.len() == 0 {
        assert(split_on_char(s, sep)[0] =~= Seq::<char>::empty());
    } else if s[0] == sep {
        lemma_split_on_char_fields(s.skip(1), sep);
        let parts = split_on_char(s, sep);
        let rest = split_on_char(s.skip(1), sep);
        assert forall|k: int| 0 <= k < parts.len() implies no_char(parts[k], sep) by {
            if k == 0 {
                assert(parts[0] =~= Seq::<char>::empty());
            } else {
                assert(parts[k] == rest[k - 1]);
            }
        }
    } else {
        lemma_split_on_char_fields(s.skip(1), sep);
        lemma_split_on_char_len(s.skip(1), sep);
        let parts = split_on_char(s, sep);
        let rest = split_on_char(s.skip(1), sep);
        assert forall|k: int| 0 <= k < parts.len() implies no_char(parts[k], sep) by {
            if k == 0 {
                assert(parts[0] == seq![s[0]] + rest[0]);
                lemma_no_char_concat(seq![s[0]], rest[0], sep);
            } else {
                assert(parts[k] == rest.skip(1)[k - 1]);
                assert(rest.skip(1)[k - 1] == rest[k]);
            }
        }
    }
}

/// No line of a text holds a newline character.
pub proof fn lemma_split_lines_fields(s: Seq<char>)
    ensures
        forall|k: int|
            0 <= k < split_lines(s).len() ==> no_char(#[trigger] split_lines(s)[k], '\n'),
{
    lemma_split_on_char_fields(s, '\n');
    let parts = split_on_char(s, '\n');
    assert forall|k: int| 0 <= k < split_lines(s).len() implies no_char(
        split_lines(s)[k],
        '\n',
    ) by {
        assert(split_lines(s)[k] == parts[k]);
    }
}

} // verus!
