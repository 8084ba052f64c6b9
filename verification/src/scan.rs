//! Plain text scanning: lines, whitespace-separated columns, and unsigned
//! decimal numerals.
//!
//! The two report loaders read their input line by line and column by
//! column; this module gives those splits exact definitions over character
//! sequences and verified implementations.
use vstd::prelude::*;

verus! {

use vstd::string::StrSliceExecFns;

/// ASCII whitespace, the column separator.
pub open spec fn is_space(c: char) -> bool {
    c == ' ' || c == '\t' || c == '\r' || c == '\n'
}

/// The maximal run of non-space characters at the front.
pub open spec fn leading_token(s: Seq<char>) -> Seq<char>
    decreases s.len(),
{
    if s.len() == 0 || is_space(s[0]) {
        Seq::empty()
    } else {
        seq![s[0]] + leading_token(s.drop_first())
    }
}

/// The whitespace-separated columns of a sequence, in order.
pub open spec fn tokens_of(s: Seq<char>) -> Seq<Seq<char>>
    decreases s.len(), 0int,
{
    if s.len() == 0 {
        Seq::empty()
    } else if is_space(s[0]) {
        tokens_of(s.drop_first())
    } else {
        seq![seq![s[0]] + leading_token(s.drop_first())] + tokens_of_after(
            s.drop_first(),
            leading_token(s.drop_first()).len(),
        )
    }
}

/// The tokens of `s` after dropping `n` characters, with `n` capped at the
/// length; keeps the recursion on `tokens_of` well-founded.
pub open spec fn tokens_of_after(s: Seq<char>, n: nat) -> Seq<Seq<char>>
    decreases s.len(), n + 1,
{
    if n == 0 || s.len() == 0 {
        tokens_of(s)
    } else {
        tokens_of_after(s.drop_first(), (n - 1) as nat)
    }
}

/// The token split at a boundary: when the characters from `i` to `j` are
/// not spaces and `j` sits at a space or the end, the remaining tokens are
/// the run `[i, j)` followed by the tokens after `j`.
pub proof fn lemma_token_at(s: Seq<char>, j: int)
    requires
        0 < j <= s.len(),
        forall|k: int| 0 <= k < j ==> !is_space(#[trigger] s[k]),
        j < s.len() ==> is_space(s[j]),
    ensures
        tokens_of(s) == seq![s.take(j)] + tokens_of(s.skip(j)),
    decreases j,
{
    let t = s.drop_first();
    if j == 1 {
        assert(leading_token(t) =~= Seq::<char>::empty()) by {
            if t.len() > 0 {
                assert(s[1] == t[0]);
            }
        }
        assert(seq![s[0]] + leading_token(t) =~= s.take(1));
        assert(tokens_of_after(t, 0) == tokens_of(t));
        assert(t =~= s.skip(1));
    } else {
        assert forall|k: int| 0 <= k < j - 1 implies !is_space(#[trigger] t[k]) by {
            assert(t[k] == s[k + 1]);
        }
        assert(j - 1 < t.len() ==> is_space(t[j - 1]));
        lemma_token_at(t, j - 1);
        assert(tokens_of(t) == seq![t.take(j - 1)] + tokens_of(t.skip(j - 1)));
        lemma_leading_token_run(t, j - 1);
        assert(leading_token(t) == t.take(j - 1));
        assert(seq![s[0]] + leading_token(t) =~= s.take(j));
        lemma_tokens_of_after_skip(t, (j - 1) as nat);
        assert(tokens_of_after(t, (j - 1) as nat) == tokens_of(t.skip(j - 1)));
        assert(t.skip(j - 1) =~= s.skip(j));
    }
}

/// A non-space run up to a boundary is the leading token.
pub proof fn lemma_leading_token_run(s: Seq<char>, j: int)
    requires
        0 <= j <= s.len(),
        forall|k: int| 0 <= k < j ==> !is_space(#[trigger] s[k]),
        j < s.len() ==> is_space(s[j]),
    ensures
        leading_token(s) == s.take(j),
    decreases j,
{
    if j == 0 {
        assert(leading_token(s) =~= s.take(0));
    } else {
        let t = s.drop_first();
        assert forall|k: int| 0 <= k < j - 1 implies !is_space(#[trigger] t[k]) by {
            assert(t[k] == s[k + 1]);
        }
        assert(j - 1 < t.len() ==> is_space(t[j - 1]));
        lemma_leading_token_run(t, j - 1);
        assert(seq![s[0]] + t.take(j - 1) =~= s.take(j));
    }
}

/// Dropping `n` characters one at a time is skipping them at once.
pub proof fn lemma_tokens_of_after_skip(s: Seq<char>, n: nat)
    requires
        n <= s.len(),
    ensures
        tokens_of_after(s, n) == tokens_of(s.skip(n as int)),
    decreases n,
{
    if n == 0 {
        assert(s.skip(0) =~= s);
    } else if s.len() == 0 {
    } else {
        lemma_tokens_of_after_skip(s.drop_first(), (n - 1) as nat);
        assert(s.drop_first().skip(n as int - 1) =~= s.skip(n as int));
    }
}

/// A leading space does not change the tokens.
pub proof fn lemma_tokens_space(s: Seq<char>, i: int)
    requires
        0 <= i < s.len(),
        is_space(s[i]),
    ensures
        tokens_of(s.skip(i)) == tokens_of(s.skip(i + 1)),
{
    assert(s.skip(i)[0] == s[i]);
    assert(s.skip(i).drop_first() =~= s.skip(i + 1));
}

/// Decides whether a character is ASCII whitespace.
pub fn space_char(c: char) -> (r: bool)
    ensures
        r == is_space(c),
{
    c == ' ' || c == '\t' || c == '\r' || c == '\n'
}

/// Splits a string into its whitespace-separated columns.
pub fn split_tokens(s: &str) -> (r: Vec<String>)
    ensures
        r.deep_view() == tokens_of(s@),
{
    let len = s.unicode_len();
    let mut out: Vec<String> = Vec::new();
    let mut i: usize = 0;
    proof {
        assert(s@.skip(0) =~= s@);
        assert(out.deep_view() =~= Seq::<Seq<char>>::empty());
    }
    while i < len
        invariant
            i <= len,
            len == s@.len(),
            tokens_of(s@) == out.deep_view() + tokens_of(s@.skip(i as int)),
        decreases len - i,
    {
        let c = s.get_char(i);
        if space_char(c) {
            proof {
                lemma_tokens_space(s@, i as int);
            }
            i = i + 1;
        } else {
            let mut j: usize = i + 1;
            while j < len && !space_char(s.get_char(j))
                invariant
                    i < j <= len,
                    len == s@.len(),
                    forall|k: int| i <= k < j ==> !is_space(#[trigger] s@[k]),
                decreases len - j,
            {
                j = j + 1;
            }
            let tok = s.substring_char(i, j);
            proof {
                let rest = s@.skip(i as int);
                assert forall|k: int| 0 <= k < j - i implies !is_space(#[trigger] rest[k]) by {
                    assert(rest[k] == s@[i + k]);
                }
                assert(j < len ==> is_space(rest[j - i])) by {
                    if j < len {
                        assert(rest[j - i] == s@[j as int]);
                    }
                }
                lemma_token_at(rest, j - i);
                assert(rest.take(j - i) =~= s@.subrange(i as int, j as int));
                assert(rest.skip(j - i) =~= s@.skip(j as int));
                assert(tok@ == rest.take(j - i));
                assert(out.deep_view().len() == out@.len());
            }
            out.push(tok.to_owned());
            proof {
                assert(out.deep_view() =~= (out.deep_view().drop_last()) + seq![
                    s@.skip(i as int).take(j - i),
                ]);
                assert(tokens_of(s@) =~= out.deep_view() + tokens_of(s@.skip(j as int)));
            }
            i = j;
        }
    }
    proof {
        assert(s@.skip(len as int) =~= Seq::<char>::empty());
        assert(tokens_of(Seq::<char>::empty()) =~= Seq::<Seq<char>>::empty());
        assert(out.deep_view() =~= tokens_of(s@));
    }
    out
}

/// A decimal digit.
pub open spec fn is_digit(c: char) -> bool {
    '0' <= c && c <= '9'
}

/// A digit's numeric value.
pub open spec fn digit_val(c: char) -> int {
    c as int - '0' as int
}

/// The value of a digit sequence read in base ten.
pub open spec fn digits_value(s: Seq<char>) -> int
    decreases s.len(),
{
    if s.len() == 0 {
        0
    } else {
        digits_value(s.drop_last()) * 10 + digit_val(s.last())
    }
}

/// The digits of a numeral: an optional leading plus sign is dropped.
pub open spec fn numeral_digits(s: Seq<char>) -> Seq<char> {
    if s.len() > 0 && s[0] == '+' {
        s.drop_first()
    } else {
        s
    }
}

/// A numeral that a `u32` can hold: at least one digit, all digits, value
/// in range.
pub open spec fn is_u32_numeral(s: Seq<char>) -> bool {
    let d = numeral_digits(s);
    &&& d.len() > 0
    &&& forall|i: int| 0 <= i < d.len() ==> is_digit(#[trigger] d[i])
    &&& digits_value(d) <= u32::MAX
}

/// The value of a numeral.
pub open spec fn numeral_value(s: Seq<char>) -> int {
    digits_value(numeral_digits(s))
}

pub proof fn lemma_digits_value_nonneg(s: Seq<char>)
    requires
        forall|i: int| 0 <= i < s.len() ==> is_digit(#[trigger] s[i]),
    ensures
        digits_value(s) >= 0,
    decreases s.len(),
{
    if s.len() > 0 {
        assert(forall|i: int| 0 <= i < s.drop_last().len() ==> s.drop_last()[i] == s[i]);
        lemma_digits_value_nonneg(s.drop_last());
    }
}

/// Parses an unsigned decimal numeral, `None` on any malformed or
/// out-of-range input.
pub fn parse_u32(s: &str) -> (r: Option<u32>)
    ensures
        match r {
            Some(v) => is_u32_numeral(s@) && v == numeral_value(s@),
            None => !is_u32_numeral(s@),
        },
{
    let len = s.unicode_len();
    let mut start: usize = 0;
    if len > 0 && s.get_char(0) == '+' {
        start = 1;
    }
    let ghost d = numeral_digits(s@);
    proof {
        assert(d =~= s@.skip(start as int));
    }
    if start == len {
        return None;
    }
    let mut acc: u64 = 0;
    let mut too_big: bool = false;
    let mut i: usize = start;
    proof {
        assert(d.take(0) =~= Seq::<char>::empty());
    }
    while i < len
        invariant
            start <= i <= len,
            len == s@.len(),
            d == numeral_digits(s@),
            d =~= s@.skip(start as int),
            forall|k: int| 0 <= k < i - start ==> is_digit(#[trigger] d[k]),
            !too_big ==> acc as int == digits_value(d.take(i - start)) && acc <= u32::MAX,
            too_big ==> digits_value(d.take(i - start)) > u32::MAX,
        decreases len - i,
    {
        let c = s.get_char(i);
        if !(c >= '0' && c <= '9') {
            proof {
                assert(d[i - start] == s@[i as int]);
                assert(!is_digit(d[i - start]));
            }
            return None;
        }
        proof {
            assert(d[i - start] == s@[i as int]);
            assert(d.take(i - start + 1).drop_last() =~= d.take(i - start));
            assert(d.take(i - start + 1).last() == d[i - start]);
            lemma_digits_value_nonneg(d.take(i - start));
        }
        let dv: u64 = (c as u32 - 48) as u64;
        proof {
            assert(dv as int == digit_val(d[i - start]));
            assert(0 <= dv <= 9);
        }
        if too_big {
        } else if acc > (u32::MAX / 10) as u64 || (acc == (u32::MAX / 10) as u64 && dv > (
        u32::MAX % 10) as u64) {
            proof {
                assert(acc as int * 10 + dv as int > u32::MAX);
            }
            too_big = true;
        } else {
            acc = acc * 10 + dv;
        }
        i = i + 1;
    }
    proof {
        assert(d.take(i - start) =~= d);
    }
    if too_big {
        return None;
    }
    proof {
        assert(is_u32_numeral(s@));
    }
    Some(acc as u32)
}

/// The raw newline-separated segments; the segment after a final newline is
/// present and empty.
pub open spec fn lines_raw(s: Seq<char>) -> Seq<Seq<char>>
    decreases s.len(),
{
    if s.len() == 0 {
        seq![Seq::<char>::empty()]
    } else if s[0] == '\n' {
        seq![Seq::<char>::empty()] + lines_raw(s.drop_first())
    } else {
        let r = lines_raw(s.drop_first());
        seq![seq![s[0]] + r[0]] + r.drop_first()
    }
}

/// A line with a trailing carriage return stripped.
pub open spec fn strip_cr(s: Seq<char>) -> Seq<char> {
    if s.len() > 0 && s.last() == '\r' {
        s.drop_last()
    } else {
        s
    }
}

/// The lines of a text: newline-separated, a trailing carriage return
/// stripped from each, and no final empty line after a terminating newline.
pub open spec fn lines_of(s: Seq<char>) -> Seq<Seq<char>> {
    let raw = lines_raw(s);
    let trimmed = if raw.len() > 0 && raw.last().len() == 0 {
        raw.drop_last()
    } else {
        raw
    };
    trimmed.map_values(|l: Seq<char>| strip_cr(l))
}

/// The raw segments always hold at least one segment.
pub proof fn lemma_lines_raw_nonempty(s: Seq<char>)
    ensures
        lines_raw(s).len() >= 1,
    decreases s.len(),
{
    if s.len() > 0 && s[0] != '\n' {
        lemma_lines_raw_nonempty(s.drop_first());
    }
}

/// The raw-segment split at a newline boundary.
pub proof fn lemma_lines_raw_split(s: Seq<char>, j: int)
    requires
        0 <= j <= s.len(),
        forall|k: int| 0 <= k < j ==> (#[trigger] s[k]) != '\n',
        j < s.len() ==> s[j] == '\n',
    ensures
        j < s.len() ==> lines_raw(s) == seq![s.take(j)] + lines_raw(s.skip(j + 1)),
        j == s.len() ==> lines_raw(s) == seq![s.take(j)],
    decreases j,
{
    lemma_lines_raw_nonempty(s);
    assert(s.take(0) =~= Seq::<char>::empty());
    if j == 0 {
        if s.len() == 0 {
            assert(lines_raw(s) =~= seq![s.take(0)]);
        } else {
            assert(s.drop_first() =~= s.skip(1));
            assert(lines_raw(s) =~= seq![s.take(0)] + lines_raw(s.skip(1)));
        }
    } else {
        let t = s.drop_first();
        assert forall|k: int| 0 <= k < j - 1 implies (#[trigger] t[k]) != '\n' by {
            assert(t[k] == s[k + 1]);
        }
        assert(j - 1 < t.len() ==> t[j - 1] == '\n');
        lemma_lines_raw_split(t, j - 1);
        lemma_lines_raw_nonempty(t);
        if j < s.len() {
            assert(lines_raw(t) == seq![t.take(j - 1)] + lines_raw(t.skip(j)));
            assert(lines_raw(t)[0] == t.take(j - 1));
            assert(seq![s[0]] + t.take(j - 1) =~= s.take(j));
            assert(t.skip(j) =~= s.skip(j + 1));
            assert(lines_raw(s) =~= seq![s.take(j)] + lines_raw(s.skip(j + 1))) by {
                assert(lines_raw(s) == seq![seq![s[0]] + lines_raw(t)[0]] + lines_raw(
                    t,
                ).drop_first());
                assert(lines_raw(t).drop_first() =~= lines_raw(s.skip(j + 1)));
            }
        } else {
            assert(lines_raw(t) == seq![t.take(j - 1)]);
            assert(seq![s[0]] + t.take(j - 1) =~= s.take(j));
            assert(lines_raw(s) =~= seq![s.take(j)]) by {
                assert(lines_raw(t).drop_first() =~= Seq::<Seq<char>>::empty());
            }
        }
    }
}

/// Splits a text into its lines.
pub fn split_lines(s: &str) -> (r: Vec<String>)
    ensures
        r.deep_view() == lines_of(s@),
{
    let len = s.unicode_len();
    let mut out: Vec<String> = Vec::new();
    let mut i: usize = 0;
    let ghost mut raw_done: Seq<Seq<char>> = Seq::empty();
    proof {
        assert(s@.skip(0) =~= s@);
        assert(out.deep_view() =~= raw_done.map_values(|l: Seq<char>| strip_cr(l)));
    }
    while i < len
        invariant
            i <= len,
            len == s@.len(),
            lines_raw(s@) == raw_done + lines_raw(s@.skip(i as int)),
            out.deep_view() == raw_done.map_values(|l: Seq<char>| strip_cr(l)),
            out@.len() == raw_done.len(),
        decreases len - i,
    {
        let mut j: usize = i;
        while j < len && s.get_char(j) != '\n'
            invariant
                i <= j <= len,
                len == s@.len(),
                forall|k: int| i <= k < j ==> (#[trigger] s@[k]) != '\n',
            decreases len - j,
        {
            j = j + 1;
        }
        let mut line_end: usize = j;
        if line_end > i && s.get_char(line_end - 1) == '\r' {
            line_end = line_end - 1;
        }
        let line = s.substring_char(i, line_end);
        proof {
            let rest = s@.skip(i as int);
            assert forall|k: int| 0 <= k < j - i implies (#[trigger] rest[k]) != '\n' by {
                assert(rest[k] == s@[i + k]);
            }
            assert(j < len ==> rest[j - i] == '\n') by {
                if j < len {
                    assert(rest[j - i] == s@[j as int]);
                }
            }
            lemma_lines_raw_split(rest, j - i);
            assert(rest.take(j - i) =~= s@.subrange(i as int, j as int));
            if j < len {
                assert(rest.skip(j - i + 1) =~= s@.skip(j as int + 1));
            }
            assert(line@ =~= strip_cr(s@.subrange(i as int, j as int))) by {
                if line_end < j {
                    assert(s@.subrange(i as int, j as int).last() == s@[j - 1]);
                    assert(s@.subrange(i as int, line_end as int) =~= s@.subrange(
                        i as int,
                        j as int,
                    ).drop_last());
                } else {
                    if s@.subrange(i as int, j as int).len() > 0 {
                        assert(s@.subrange(i as int, j as int).last() == s@[j - 1]);
                    }
                }
            }
            assert(out.deep_view().len() == out@.len());
        }
        out.push(line.to_owned());
        proof {
            let ghost prev_done = raw_done;
            raw_done = raw_done.push(s@.subrange(i as int, j as int));
            assert(out@.len() == raw_done.len());
            assert(out.deep_view().len() == out@.len());
            assert forall|k: int| 0 <= k < raw_done.len() implies out.deep_view()[k]
                == raw_done.map_values(|l: Seq<char>| strip_cr(l))[k] by {
                if k < prev_done.len() {
                    assert(out.deep_view()[k] == prev_done.map_values(
                        |l: Seq<char>| strip_cr(l),
                    )[k]);
                } else {
                    assert(out.deep_view()[k] == line@);
                }
            }
            assert(out.deep_view() =~= raw_done.map_values(|l: Seq<char>| strip_cr(l)));
            if j < len {
                assert(lines_raw(s@.skip(i as int)) == seq![s@.subrange(i as int, j as int)]
                    + lines_raw(s@.skip(j as int + 1)));
                assert(lines_raw(s@) =~= raw_done + lines_raw(s@.skip(j as int + 1)));
            } else {
                assert(lines_raw(s@.skip(i as int)) == seq![s@.subrange(i as int, j as int)]);
                assert(lines_raw(s@) =~= raw_done + Seq::<Seq<char>>::empty());
            }
        }
        if j < len {
            i = j + 1;
            proof {
                assert(lines_raw(s@) == raw_done + lines_raw(s@.skip(i as int)));
            }
        } else {
            proof {
                let raw = lines_raw(s@);
                assert(raw =~= raw_done);
                assert(raw.len() > 0);
                assert(raw.last() == s@.subrange(i as int, j as int));
                assert(j > i);
                assert(raw.last().len() > 0);
                assert(out.deep_view() =~= lines_of(s@));
            }
            return out;
        }
    }
    proof {
        assert(s@.skip(len as int) =~= Seq::<char>::empty());
        assert(lines_raw(Seq::<char>::empty()) == seq![Seq::<char>::empty()]);
        assert(lines_raw(s@) =~= raw_done.push(Seq::<char>::empty()));
        assert(lines_raw(s@).last().len() == 0);
        assert(lines_raw(s@).drop_last() =~= raw_done);
        assert(lines_raw(s@).len() > 0);
        assert(out.deep_view() =~= lines_of(s@));
    }
    out
}

} // verus!
