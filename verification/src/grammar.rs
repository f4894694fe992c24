//! The softnet grammar, written out as specification functions.
//!
//! One record per line. A line is nine mandatory hexadecimal fields
//! separated by single spaces, then up to four optional fields each
//! preceded by a single space, then a line terminator. An optional field
//! that is not present ends the attempts: no later optional field is
//! looked for at another position, so presence is always a prefix of the
//! fixed order. The whole input is one or more lines and nothing else.

use vstd::prelude::*;
use crate::softnet::{ParseErrorKind, SoftnetStat};

verus! {

/// A lowercase hexadecimal digit, as the kernel's `%x` prints them.
pub open spec fn is_hex_digit(b: u8) -> bool {
    (48 <= b && b <= 57) || (97 <= b && b <= 102)
}

/// The numeric value of one hexadecimal digit.
pub open spec fn hex_digit_val(b: u8) -> nat {
    if 48 <= b && b <= 57 {
        (b - 48) as nat
    } else {
        (b - 87) as nat
    }
}

/// How many consecutive hexadecimal digits stand at `i`.
pub open spec fn hex_run_len(s: Seq<u8>, i: int) -> int
    decreases s.len() - i,
{
    if 0 <= i && i < s.len() && is_hex_digit(s[i]) {
        1 + hex_run_len(s, i + 1)
    } else {
        0
    }
}

/// The value of the digits `s[i .. j)`, most significant first.
pub open spec fn hex_run_val(s: Seq<u8>, i: int, j: int) -> nat
    decreases j - i,
{
    if j <= i {
        0
    } else {
        hex_run_val(s, i, j - 1) * 16 + hex_digit_val(s[j - 1])
    }
}

/// Parse one hexadecimal field at `i`: one to eight digits, so the value
/// fits a 32-bit unsigned integer. Returns the value and the position
/// just past the field, or `None` where no such field stands at `i`.
pub open spec fn spec_parse_hex(s: Seq<u8>, i: int) -> Option<(u32, int)> {
    let n = hex_run_len(s, i);
    if 1 <= n && n <= 8 {
        Some((hex_run_val(s, i, i + n) as u32, i + n))
    } else {
        None
    }
}

/// Parse exactly `k` further mandatory fields, each preceded by one space.
pub open spec fn spec_parse_sep_fields(s: Seq<u8>, i: int, k: nat) -> Result<
    (Seq<u32>, int),
    (int, ParseErrorKind),
>
    decreases k,
{
    if k == 0 {
        Ok((Seq::empty(), i))
    } else if !(0 <= i && i < s.len() && s[i] == 32) {
        Err((i, ParseErrorKind::MalformedToken))
    } else {
        match spec_parse_hex(s, i + 1) {
            None => Err((i + 1, ParseErrorKind::MalformedToken)),
            Some((v, j)) => match spec_parse_sep_fields(s, j, (k - 1) as nat) {
                Ok((vs, m)) => Ok((seq![v] + vs, m)),
                Err(e) => Err(e),
            },
        }
    }
}

/// Attempt one optional field: a single space followed by a hexadecimal
/// field. `None` consumes nothing.
pub open spec fn spec_opt_field(s: Seq<u8>, i: int) -> Option<(u32, int)> {
    if 0 <= i && i < s.len() && s[i] == 32 {
        spec_parse_hex(s, i + 1)
    } else {
        None
    }
}

/// Consume a line terminator at `i`: a line feed, or a carriage return
/// followed by a line feed.
pub open spec fn spec_line_ending(s: Seq<u8>, i: int) -> Option<int> {
    if 0 <= i && i < s.len() && s[i] == 10 {
        Some(i + 1)
    } else if 0 <= i && i + 1 < s.len() && s[i] == 13 && s[i + 1] == 10 {
        Some(i + 2)
    } else {
        None
    }
}

/// Parse one whole line at `i`: nine mandatory fields, at most four
/// optional fields attempted in fixed order, and the line terminator.
/// On success the result holds the record and the position just past the
/// terminator; on failure, the offending position and the kind of
/// mismatch.
pub open spec fn spec_parse_line(s: Seq<u8>, i: int) -> Result<
    (SoftnetStat, int),
    (int, ParseErrorKind),
> {
    match spec_parse_hex(s, i) {
        None => Err((i, ParseErrorKind::MalformedToken)),
        Some((processed, i1)) => match spec_parse_sep_fields(s, i1, 8) {
            Err(e) => Err(e),
            Ok((rest, i9)) => {
                let (rps, i10) = match spec_opt_field(s, i9) {
                    Some((v, j)) => (Some(v), j),
                    None => (None, i9),
                };
                let (flow, i11) = match spec_opt_field(s, i10) {
                    Some((v, j)) => (Some(v), j),
                    None => (None, i10),
                };
                let (backlog, i12) = match spec_opt_field(s, i11) {
                    Some((v, j)) => (Some(v), j),
                    None => (None, i11),
                };
                let (cpu, i13) = match spec_opt_field(s, i12) {
                    Some((v, j)) => (Some(v), j),
                    None => (None, i12),
                };
                match spec_line_ending(s, i13) {
                    None => Err((i13, ParseErrorKind::MissingLineEnding)),
                    Some(end) => Ok(
                        (
                            SoftnetStat {
                                processed,
                                dropped: rest[0],
                                time_squeeze: rest[1],
                                cpu_collision: rest[7],
                                received_rps: rps,
                                flow_limit_count: flow,
                                backlog_len: backlog,
                                cpu_id: cpu,
                            },
                            end,
                        ),
                    ),
                }
            },
        },
    }
}

/// Parse lines from `i` to the very end of the input: the whole parse
/// succeeds only if every line parses and every byte is consumed.
pub open spec fn spec_parse_lines(s: Seq<u8>, i: int) -> Result<
    Seq<SoftnetStat>,
    (int, ParseErrorKind),
>
    decreases s.len() - i,
        when 0 <= i <= s.len()
        via spec_parse_lines_decreases
{
    match spec_parse_line(s, i) {
        Err(e) => Err(e),
        Ok((rec, j)) => {
            if j >= s.len() {
                Ok(seq![rec])
            } else {
                match spec_parse_lines(s, j) {
                    Ok(recs) => Ok(seq![rec] + recs),
                    Err(e) => Err(e),
                }
            }
        },
    }
}

#[via_fn]
proof fn spec_parse_lines_decreases(s: Seq<u8>, i: int) {
    lemma_parse_line_advances(s, i);
}

/// The whole-input parse: empty input is refused, otherwise the lines are
/// parsed to exhaustion.
pub open spec fn spec_parse(s: Seq<u8>) -> Result<Seq<SoftnetStat>, (int, ParseErrorKind)> {
    if s.len() == 0 {
        Err((0, ParseErrorKind::EmptyInput))
    } else {
        spec_parse_lines(s, 0)
    }
}

/// A run of digits is no longer than the input it stands in.
pub proof fn lemma_hex_run_len_bounds(s: Seq<u8>, i: int)
    requires
        0 <= i <= s.len(),
    ensures
        0 <= hex_run_len(s, i) <= s.len() - i,
    decreases s.len() - i,
{
    if i < s.len() && is_hex_digit(s[i]) {
        lemma_hex_run_len_bounds(s, i + 1);
    }
}

/// Splitting a digit run: the digits from `i` to `j` followed by those
/// from `j` on are the digits from `i` on.
pub proof fn lemma_hex_run_len_split(s: Seq<u8>, i: int, j: int)
    requires
        0 <= i <= j <= s.len(),
        forall|k: int| i <= k < j ==> is_hex_digit(s[k]),
    ensures
        hex_run_len(s, i) == (j - i) + hex_run_len(s, j),
    decreases j - i,
{
    if i < j {
        assert(is_hex_digit(s[i]));
        lemma_hex_run_len_split(s, i + 1, j);
    }
}

/// The value of a digit run depends on the digits alone, not on where
/// they stand.
pub proof fn lemma_hex_run_val_translate(s: Seq<u8>, i: int, t: Seq<u8>)
    requires
        0 <= i,
        i + t.len() <= s.len(),
        s.subrange(i, i + t.len()) == t,
    ensures
        hex_run_val(s, i, i + t.len()) == hex_run_val(t, 0, t.len() as int),
    decreases t.len(),
{
    if t.len() > 0 {
        let head = t.drop_last();
        assert(s.subrange(i, i + head.len()) =~= head) by {
            assert forall|k: int| 0 <= k < head.len() implies s.subrange(i, i + head.len())[k]
                == head[k] by {
                assert(s[i + k] == s.subrange(i, i + t.len())[k]);
            }
        }
        lemma_hex_run_val_translate(s, i, head);
        assert(t.subrange(0, head.len() as int) =~= head);
        lemma_hex_run_val_translate(t, 0, head);
        assert(s[i + t.len() - 1] == s.subrange(i, i + t.len())[t.len() - 1]);
    }
}

/// A parsed hexadecimal field advances the position and stays in bounds.
pub proof fn lemma_parse_hex_advances(s: Seq<u8>, i: int)
    requires
        0 <= i <= s.len(),
    ensures
        spec_parse_hex(s, i) matches Some((v, j)) ==> i + 1 <= j <= s.len(),
{
    lemma_hex_run_len_bounds(s, i);
}

/// Parsed mandatory fields advance the position, stay in bounds, and
/// yield one value per field.
pub proof fn lemma_sep_fields_advance(s: Seq<u8>, i: int, k: nat)
    requires
        0 <= i <= s.len(),
    ensures
        spec_parse_sep_fields(s, i, k) matches Ok((vs, m)) ==> i <= m <= s.len() && vs.len()
            == k,
    decreases k,
{
    if k > 0 && 0 <= i && i < s.len() && s[i] == 32 {
        lemma_parse_hex_advances(s, i + 1);
        match spec_parse_hex(s, i + 1) {
            None => {},
            Some((v, j)) => {
                lemma_sep_fields_advance(s, j, (k - 1) as nat);
            },
        }
    }
}

/// A present optional field advances the position and stays in bounds.
pub proof fn lemma_opt_field_advances(s: Seq<u8>, i: int)
    requires
        0 <= i <= s.len(),
    ensures
        spec_opt_field(s, i) matches Some((v, j)) ==> i + 2 <= j <= s.len(),
{
    if 0 <= i && i < s.len() && s[i] == 32 {
        lemma_parse_hex_advances(s, i + 1);
    }
}

/// A parsed line consumes at least one byte and stays in bounds.
pub proof fn lemma_parse_line_advances(s: Seq<u8>, i: int)
    requires
        0 <= i <= s.len(),
    ensures
        spec_parse_line(s, i) matches Ok((rec, j)) ==> i < j <= s.len(),
{
    lemma_parse_hex_advances(s, i);
    match spec_parse_hex(s, i) {
        None => {},
        Some((processed, i1)) => {
            lemma_sep_fields_advance(s, i1, 8);
            match spec_parse_sep_fields(s, i1, 8) {
                Err(_) => {},
                Ok((rest, i9)) => {
                    lemma_opt_field_advances(s, i9);
                    let i10 = match spec_opt_field(s, i9) {
                        Some((v, j)) => j,
                        None => i9,
                    };
                    lemma_opt_field_advances(s, i10);
                    let i11 = match spec_opt_field(s, i10) {
                        Some((v, j)) => j,
                        None => i10,
                    };
                    lemma_opt_field_advances(s, i11);
                    let i12 = match spec_opt_field(s, i11) {
                        Some((v, j)) => j,
                        None => i11,
                    };
                    lemma_opt_field_advances(s, i12);
                },
            }
        },
    }
}

} // verus!
