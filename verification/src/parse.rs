//! The executable parser, proved equal to the grammar's specification.

use vstd::prelude::*;
use crate::grammar::{
    hex_digit_val, hex_run_len, hex_run_val, is_hex_digit, spec_line_ending, spec_opt_field,
    spec_parse, spec_parse_hex, spec_parse_line, spec_parse_lines, spec_parse_sep_fields,
    lemma_hex_run_len_split, lemma_parse_line_advances,
};
use crate::softnet::{ParseError, ParseErrorKind, SoftnetStat};

verus! {

/// Sixteen to the `n`th power: the number of values `n` hex digits span.
pub open spec fn pow16(n: nat) -> nat
    decreases n,
{
    if n == 0 {
        1
    } else {
        16 * pow16((n - 1) as nat)
    }
}

/// Sixteen to a power grows with the power.
proof fn lemma_pow16_le(n: nat, m: nat)
    requires
        n <= m,
    ensures
        pow16(n) <= pow16(m),
    decreases m - n,
{
    if n < m {
        lemma_pow16_le(n, (m - 1) as nat);
        assert(pow16(m) == 16 * pow16((m - 1) as nat));
    }
}

/// The spans of seven and eight hex digits, written out.
proof fn lemma_pow16_concrete()
    ensures
        pow16(7) == 0x10000000,
        pow16(8) == 0x100000000,
{
    reveal_with_fuel(pow16, 9);
}

/// The value of a digit run is bounded by the span of its width.
proof fn lemma_hex_run_val_bound(s: Seq<u8>, i: int, j: int)
    requires
        0 <= i <= j <= s.len(),
        forall|k: int| i <= k < j ==> is_hex_digit(s[k]),
    ensures
        hex_run_val(s, i, j) < pow16((j - i) as nat),
    decreases j - i,
{
    if j > i {
        lemma_hex_run_val_bound(s, i, j - 1);
        assert(hex_digit_val(s[j - 1]) <= 15);
        assert(pow16((j - i) as nat) == 16 * pow16((j - i - 1) as nat));
    }
}

fn is_hex_digit_byte(b: u8) -> (r: bool)
    ensures
        r == is_hex_digit(b),
{
    (48 <= b && b <= 57) || (97 <= b && b <= 102)
}

fn hex_digit_value(b: u8) -> (r: u32)
    requires
        is_hex_digit(b),
    ensures
        r as nat == hex_digit_val(b),
{
    if b <= 57 {
        (b - 48) as u32
    } else {
        (b - 87) as u32
    }
}

/// Parse one hexadecimal field at `i`, as `spec_parse_hex` describes it.
fn parse_hex_at(input: &[u8], i: usize) -> (r: Option<(u32, usize)>)
    requires
        i <= input@.len(),
    ensures
        match r {
            Some((v, j)) => spec_parse_hex(input@, i as int) == Some((v, j as int)) && i < j
                <= input@.len(),
            None => spec_parse_hex(input@, i as int) is None,
        },
{
    let len = input.len();
    let mut j = i;
    let mut val: u32 = 0;
    while j < len && j - i < 8 && is_hex_digit_byte(input[j])
        invariant
            i <= j <= len,
            len == input@.len(),
            j - i <= 8,
            forall|k: int| i <= k < j ==> is_hex_digit(input@[k]),
            val as nat == hex_run_val(input@, i as int, j as int),
        decreases len - j,
    {
        proof {
            lemma_hex_run_val_bound(input@, i as int, j as int);
            lemma_pow16_le((j - i) as nat, 7);
            lemma_pow16_concrete();
        }
        let d = hex_digit_value(input[j]);
        assert(val < 0x10000000);
        val = val * 16 + d;
        j = j + 1;
    }
    proof {
        lemma_hex_run_len_split(input@, i as int, j as int);
    }
    if j == i {
        // No digit at all stands at `i`.
        None
    } else if j - i == 8 && j < len && is_hex_digit_byte(input[j]) {
        // A ninth digit follows: the run is wider than a 32-bit field.
        proof {
            crate::grammar::lemma_hex_run_len_bounds(input@, j as int + 1);
        }
        assert(hex_run_len(input@, j as int) >= 1);
        None
    } else {
        assert(hex_run_len(input@, j as int) == 0);
        Some((val, j))
    }
}

/// Parse `count` further mandatory fields, each preceded by one space, as
/// `spec_parse_sep_fields` describes it.
fn parse_sep_fields(input: &[u8], start: usize, count: usize) -> (r: Result<
    (Vec<u32>, usize),
    ParseError,
>)
    requires
        start <= input@.len(),
    ensures
        match r {
            Ok((vs, m)) => spec_parse_sep_fields(input@, start as int, count as nat)
                == Ok::<_, (int, ParseErrorKind)>((vs@, m as int)) && start <= m <= input@.len()
                && vs@.len() == count,
            Err(e) => spec_parse_sep_fields(input@, start as int, count as nat) == Err::<
                (Seq<u32>, int),
                _,
            >((e.offset as int, e.kind)),
        },
{
    let ghost s = input@;
    let mut vs: Vec<u32> = Vec::new();
    let mut pos = start;
    let mut k: usize = 0;
    while k < count
        invariant
            k <= count,
            start <= pos <= s.len(),
            s == input@,
            vs@.len() == k,
            spec_parse_sep_fields(s, start as int, count as nat) == (match spec_parse_sep_fields(
                s,
                pos as int,
                (count - k) as nat,
            ) {
                Ok((rest, m)) => Ok::<_, (int, ParseErrorKind)>((vs@ + rest, m)),
                Err(e) => Err::<(Seq<u32>, int), _>(e),
            }),
        decreases count - k,
    {
        if !(pos < input.len() && input[pos] == 32) {
            return Err(ParseError { offset: pos, kind: ParseErrorKind::MalformedToken });
        }
        match parse_hex_at(input, pos + 1) {
            None => {
                return Err(ParseError { offset: pos + 1, kind: ParseErrorKind::MalformedToken });
            },
            Some((v, j)) => {
                proof {
                    let tail = spec_parse_sep_fields(s, j as int, (count - k - 1) as nat);
                    match tail {
                        Ok((rest, m)) => {
                            assert(vs@ + (seq![v] + rest) =~= vs@.push(v) + rest);
                        },
                        Err(_) => {},
                    }
                }
                vs.push(v);
                pos = j;
                k = k + 1;
            },
        }
    }
    proof {
        assert(spec_parse_sep_fields(s, pos as int, 0) == Ok::<_, (int, ParseErrorKind)>((
            Seq::<u32>::empty(),
            pos as int,
        )));
        assert(vs@ + Seq::<u32>::empty() =~= vs@);
    }
    Ok((vs, pos))
}

/// Attempt one optional field at `i`. The position is unchanged where the
/// field is absent.
fn parse_opt_field(input: &[u8], i: usize) -> (r: (Option<u32>, usize))
    requires
        i <= input@.len(),
    ensures
        (match spec_opt_field(input@, i as int) {
            Some((sv, sj)) => r.0 == Some(sv) && r.1 as int == sj,
            None => r.0 is None && r.1 == i,
        }),
        i <= r.1 <= input@.len(),
{
    if i < input.len() && input[i] == 32 {
        match parse_hex_at(input, i + 1) {
            Some((v, j)) => (Some(v), j),
            None => (None, i),
        }
    } else {
        (None, i)
    }
}

fn parse_line_ending(input: &[u8], i: usize) -> (r: Option<usize>)
    requires
        i <= input@.len(),
    ensures
        match r {
            Some(j) => spec_line_ending(input@, i as int) == Some(j as int) && i < j
                <= input@.len(),
            None => spec_line_ending(input@, i as int) is None,
        },
{
    if i < input.len() && input[i] == 10 {
        Some(i + 1)
    } else if i < input.len() && input[i] == 13 && i + 1 < input.len() && input[i + 1] == 10 {
        Some(i + 2)
    } else {
        None
    }
}

/// Parse one line at `i`, as `spec_parse_line` describes it.
fn parse_line_at(input: &[u8], i: usize) -> (r: Result<(SoftnetStat, usize), ParseError>)
    requires
        i <= input@.len(),
    ensures
        match r {
            Ok((stat, end)) => spec_parse_line(input@, i as int) == Ok::<
                _,
                (int, ParseErrorKind),
            >((stat, end as int)) && i < end <= input@.len(),
            Err(e) => spec_parse_line(input@, i as int) == Err::<(SoftnetStat, int), _>((
                e.offset as int,
                e.kind,
            )),
        },
{
    let first = match parse_hex_at(input, i) {
        None => {
            return Err(ParseError { offset: i, kind: ParseErrorKind::MalformedToken });
        },
        Some((v, j)) => (v, j),
    };
    let (processed, i1) = first;
    let rest_pair = match parse_sep_fields(input, i1, 8) {
        Err(e) => {
            return Err(e);
        },
        Ok(p) => p,
    };
    let (rest, i9) = rest_pair;
    let (rps, i10) = parse_opt_field(input, i9);
    let (flow, i11) = parse_opt_field(input, i10);
    let (backlog, i12) = parse_opt_field(input, i11);
    let (cpu, i13) = parse_opt_field(input, i12);
    match parse_line_ending(input, i13) {
        None => Err(ParseError { offset: i13, kind: ParseErrorKind::MissingLineEnding }),
        Some(end) => Ok(
            (
                SoftnetStat {
                    processed,
                    dropped: rest[0],
                    time_squeeze: rest[1],
                    cpu_collision: rest[7],
                    received_rps: rps,
                    flow_limit_count: flow,
                    backlog_len: backlog,
                    cpu_id: cpu,
                },
                end,
            ),
        ),
    }
}

/// Parse one line standing at the start of `input`.
///
/// On success the result holds the record and how many bytes the line
/// took, exactly as `spec_parse_line` describes; on failure, the byte
/// offset and kind of the mismatch.
pub fn parse_softnet_line(input: &[u8]) -> (r: Result<(SoftnetStat, usize), ParseError>)
    ensures
        match r {
            Ok((stat, consumed)) => spec_parse_line(input@, 0) == Ok::<
                _,
                (int, ParseErrorKind),
            >((stat, consumed as int)) && 0 < consumed <= input@.len(),
            Err(e) => spec_parse_line(input@, 0) == Err::<(SoftnetStat, int), _>((
                e.offset as int,
                e.kind,
            )),
        },
{
    parse_line_at(input, 0)
}

/// Parse a whole softnet snapshot: one record per line, to exhaustion.
///
/// The result mirrors `spec_parse` exactly: `Ok` holds one record per
/// input line in file order if and only if every line matches the
/// grammar and every byte is consumed; otherwise the error names the
/// first offending byte offset and the kind of mismatch. Empty input is
/// always refused.
pub fn parse_softnet_stats(input: &[u8]) -> (r: Result<Vec<SoftnetStat>, ParseError>)
    ensures
        match r {
            Ok(stats) => spec_parse(input@) == Ok::<_, (int, ParseErrorKind)>(stats@)
                && stats@.len() >= 1,
            Err(e) => spec_parse(input@) == Err::<Seq<SoftnetStat>, _>((
                e.offset as int,
                e.kind,
            )),
        },
        input@.len() == 0 ==> r == Err::<Vec<SoftnetStat>, ParseError>(
            ParseError { offset: 0, kind: ParseErrorKind::EmptyInput },
        ),
{
    let ghost s = input@;
    if input.len() == 0 {
        return Err(ParseError { offset: 0, kind: ParseErrorKind::EmptyInput });
    }
    let mut stats: Vec<SoftnetStat> = Vec::new();
    let mut pos: usize = 0;
    loop
        invariant
            0 <= pos < s.len(),
            s == input@,
            spec_parse(s) == (match spec_parse_lines(s, pos as int) {
                Ok(recs) => Ok::<_, (int, ParseErrorKind)>(stats@ + recs),
                Err(e) => Err::<Seq<SoftnetStat>, _>(e),
            }),
        decreases s.len() - pos,
    {
        proof {
            lemma_parse_line_advances(s, pos as int);
        }
        match parse_line_at(input, pos) {
            Err(e) => {
                return Err(e);
            },
            Ok((stat, end)) => {
                proof {
                    if end < s.len() {
                        match spec_parse_lines(s, end as int) {
                            Ok(recs) => {
                                assert(stats@ + (seq![stat] + recs) =~= stats@.push(stat) + recs);
                            },
                            Err(_) => {},
                        }
                    } else {
                        assert(stats@ + seq![stat] =~= stats@.push(stat));
                    }
                }
                stats.push(stat);
                if end == input.len() {
                    return Ok(stats);
                }
                pos = end;
            },
        }
    }
}

} // verus!
