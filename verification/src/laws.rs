//! The parser's behaviour on inputs built field by field, written as
//! laws: a well-formed input parses to exactly the records its fields
//! spell, and a line short of the nine mandatory fields always fails.

use vstd::prelude::*;
use crate::grammar::{
    hex_run_len, hex_run_val, is_hex_digit, lemma_hex_run_len_split, lemma_hex_run_val_translate,
    spec_line_ending, spec_opt_field, spec_parse, spec_parse_hex, spec_parse_line,
    spec_parse_lines, spec_parse_sep_fields,
};
use crate::softnet::{ParseErrorKind, SoftnetStat};

verus! {

/// One hexadecimal field as written: one to eight hex digits.
pub open spec fn hex_token(t: Seq<u8>) -> bool {
    1 <= t.len() <= 8 && forall|k: int| 0 <= k < t.len() ==> is_hex_digit(#[trigger] t[k])
}

/// The numeric value a field spells.
pub open spec fn token_val(t: Seq<u8>) -> u32 {
    hex_run_val(t, 0, t.len() as int) as u32
}

/// Every entry is a hexadecimal field.
pub open spec fn all_hex_tokens(toks: Seq<Seq<u8>>) -> bool {
    forall|j: int| 0 <= j < toks.len() ==> hex_token(#[trigger] toks[j])
}

/// The bytes of the fields after the first: one space before each.
pub open spec fn tail_join(toks: Seq<Seq<u8>>) -> Seq<u8>
    decreases toks.len(),
{
    if toks.len() == 0 {
        Seq::empty()
    } else {
        seq![32u8] + (toks[0] + tail_join(toks.skip(1)))
    }
}

/// The bytes of one line: the first field, the further fields each after
/// one space, and a line feed.
pub open spec fn line_of_tokens(toks: Seq<Seq<u8>>) -> Seq<u8> {
    toks[0] + (tail_join(toks.skip(1)) + seq![10u8])
}

/// The bytes of a whole input: one line per entry.
pub open spec fn input_of_lines(lines: Seq<Seq<Seq<u8>>>) -> Seq<u8>
    decreases lines.len(),
{
    if lines.len() == 0 {
        Seq::empty()
    } else {
        line_of_tokens(lines[0]) + input_of_lines(lines.skip(1))
    }
}

/// The record a line of nine to thirteen fields spells: the mandatory
/// counters in fixed order, then exactly as many optional fields as the
/// line carries, never skipping an earlier one to fill a later one; a
/// nine-field line leaves all four optional fields absent.
pub open spec fn record_of_tokens(toks: Seq<Seq<u8>>) -> SoftnetStat {
    SoftnetStat {
        processed: token_val(toks[0]),
        dropped: token_val(toks[1]),
        time_squeeze: token_val(toks[2]),
        cpu_collision: token_val(toks[8]),
        received_rps: if toks.len() > 9 {
            Some(token_val(toks[9]))
        } else {
            None
        },
        flow_limit_count: if toks.len() > 10 {
            Some(token_val(toks[10]))
        } else {
            None
        },
        backlog_len: if toks.len() > 11 {
            Some(token_val(toks[11]))
        } else {
            None
        },
        cpu_id: if toks.len() > 12 {
            Some(token_val(toks[12]))
        } else {
            None
        },
    }
}

/// The records a whole input spells, line by line.
pub open spec fn records_of_lines(lines: Seq<Seq<Seq<u8>>>) -> Seq<SoftnetStat>
    decreases lines.len(),
{
    if lines.len() == 0 {
        Seq::empty()
    } else {
        seq![record_of_tokens(lines[0])] + records_of_lines(lines.skip(1))
    }
}

/// `records_of_lines` characterized line by line.
pub proof fn lemma_records_of_lines_index(lines: Seq<Seq<Seq<u8>>>)
    ensures
        records_of_lines(lines).len() == lines.len(),
        forall|i: int|
            0 <= i < lines.len() ==> #[trigger] records_of_lines(lines)[i] == record_of_tokens(
                lines[i],
            ),
    decreases lines.len(),
{
    if lines.len() > 0 {
        lemma_records_of_lines_index(lines.skip(1));
    }
}

/// The values of a run of fields.
pub open spec fn token_vals(toks: Seq<Seq<u8>>) -> Seq<u32>
    decreases toks.len(),
{
    if toks.len() == 0 {
        Seq::empty()
    } else {
        seq![token_val(toks[0])] + token_vals(toks.skip(1))
    }
}

/// `token_vals` characterized field by field.
proof fn lemma_token_vals_index(toks: Seq<Seq<u8>>)
    ensures
        token_vals(toks).len() == toks.len(),
        forall|j: int|
            0 <= j < toks.len() ==> #[trigger] token_vals(toks)[j] == token_val(toks[j]),
    decreases toks.len(),
{
    if toks.len() > 0 {
        lemma_token_vals_index(toks.skip(1));
    }
}

/// Splitting a known stretch of bytes: where `a + b` stands at `i`, the
/// bytes `a` stand at `i` and `b` just past them.
proof fn lemma_split_bytes(s: Seq<u8>, i: int, a: Seq<u8>, b: Seq<u8>)
    requires
        0 <= i,
        i + a.len() + b.len() <= s.len(),
        s.subrange(i, i + a.len() + b.len()) == a + b,
    ensures
        s.subrange(i, i + a.len()) == a,
        s.subrange(i + a.len(), i + a.len() + b.len()) == b,
{
    let whole = s.subrange(i, i + a.len() + b.len());
    assert(s.subrange(i, i + a.len()) =~= a) by {
        assert forall|k: int| 0 <= k < a.len() implies s.subrange(i, i + a.len())[k] == a[k] by {
            assert(s[i + k] == whole[k]);
            assert(whole[k] == (a + b)[k]);
        }
    }
    assert(s.subrange(i + a.len(), i + a.len() + b.len()) =~= b) by {
        assert forall|k: int|
            0 <= k < b.len() implies s.subrange(i + a.len(), i + a.len() + b.len())[k] == b[k] by {
            assert(s[i + a.len() + k] == whole[a.len() + k]);
            assert(whole[a.len() + k] == (a + b)[a.len() + k]);
        }
    }
}

/// Where a field stands at `i` with no digit just past it, parsing a
/// hexadecimal field at `i` yields its value.
proof fn lemma_hex_token_at(s: Seq<u8>, i: int, t: Seq<u8>)
    requires
        hex_token(t),
        0 <= i,
        i + t.len() <= s.len(),
        s.subrange(i, i + t.len()) == t,
        i + t.len() == s.len() || !is_hex_digit(s[i + t.len()]),
    ensures
        spec_parse_hex(s, i) == Some((token_val(t), i + t.len())),
{
    assert forall|k: int| i <= k < i + t.len() implies is_hex_digit(s[k]) by {
        assert(s[k] == s.subrange(i, i + t.len())[k - i]);
    }
    lemma_hex_run_len_split(s, i, i + t.len());
    assert(hex_run_len(s, i + t.len()) == 0);
    lemma_hex_run_val_translate(s, i, t);
}

/// Parsing `k` space-preceded fields out of a longer run of fields takes
/// exactly the first `k`, in order, and stops at the field boundary.
proof fn lemma_sep_fields_join(s: Seq<u8>, i: int, toks: Seq<Seq<u8>>, k: nat)
    requires
        all_hex_tokens(toks),
        k <= toks.len(),
        0 <= i,
        i + tail_join(toks).len() <= s.len(),
        s.subrange(i, i + tail_join(toks).len()) == tail_join(toks),
        i + tail_join(toks).len() == s.len() || !is_hex_digit(s[i + tail_join(toks).len()]),
    ensures
        spec_parse_sep_fields(s, i, k) == Ok::<(Seq<u32>, int), (int, ParseErrorKind)>((
            token_vals(toks.take(k as int)),
            i + tail_join(toks.take(k as int)).len(),
        )),
        s.subrange(i + tail_join(toks.take(k as int)).len(), i + tail_join(toks).len())
            == tail_join(toks.skip(k as int)),
        tail_join(toks.take(k as int)).len() + tail_join(toks.skip(k as int)).len() == tail_join(
            toks,
        ).len(),
    decreases k,
{
    if k == 0 {
        assert(toks.take(0) =~= Seq::<Seq<u8>>::empty());
        assert(tail_join(toks.take(0)) == Seq::<u8>::empty());
        assert(token_vals(toks.take(0)) == Seq::<u32>::empty());
        assert(toks.skip(0) =~= toks);
    } else {
        let t0 = toks[0];
        let rest = toks.skip(1);
        assert(all_hex_tokens(rest)) by {
            assert forall|m: int| 0 <= m < rest.len() implies hex_token(rest[m]) by {
                assert(rest[m] == toks[m + 1]);
            }
        }
        assert(hex_token(t0));
        assert(tail_join(toks) == seq![32u8] + (t0 + tail_join(rest)));
        lemma_split_bytes(s, i, seq![32u8], t0 + tail_join(rest));
        let p = i + 1;
        lemma_split_bytes(s, p, t0, tail_join(rest));
        let j = p + t0.len();
        assert(s[i] == 32) by {
            assert(s[i] == s.subrange(i, i + 1)[0]);
        }
        if rest.len() > 0 {
            assert(tail_join(rest)[0] == 32);
            assert(s[j] == s.subrange(j, j + tail_join(rest).len())[0]);
            assert(!is_hex_digit(s[j]));
        }
        lemma_hex_token_at(s, p, t0);
        lemma_sep_fields_join(s, j, rest, (k - 1) as nat);
        assert(toks.take(k as int).skip(1) =~= rest.take(k as int - 1));
        assert(toks.skip(k as int) =~= rest.skip(k as int - 1));
        assert(token_vals(toks.take(k as int)) == seq![token_val(t0)] + token_vals(
            rest.take(k as int - 1),
        )) by {
            assert(toks.take(k as int)[0] == t0);
        }
        assert(tail_join(toks.take(k as int)) == seq![32u8] + (t0 + tail_join(
            rest.take(k as int - 1),
        ))) by {
            assert(toks.take(k as int)[0] == t0);
        }
    }
}

/// Parsing more space-preceded fields than the run holds fails where the
/// line terminator stands.
proof fn lemma_sep_fields_join_short(s: Seq<u8>, i: int, toks: Seq<Seq<u8>>, k: nat)
    requires
        all_hex_tokens(toks),
        k > toks.len(),
        0 <= i,
        i + tail_join(toks).len() < s.len(),
        s.subrange(i, i + tail_join(toks).len()) == tail_join(toks),
        s[i + tail_join(toks).len()] != 32,
        !is_hex_digit(s[i + tail_join(toks).len()]),
    ensures
        spec_parse_sep_fields(s, i, k) is Err,
    decreases k,
{
    if toks.len() == 0 {
        assert(s[i] != 32);
    } else {
        let t0 = toks[0];
        let rest = toks.skip(1);
        assert(all_hex_tokens(rest)) by {
            assert forall|m: int| 0 <= m < rest.len() implies hex_token(rest[m]) by {
                assert(rest[m] == toks[m + 1]);
            }
        }
        assert(hex_token(t0));
        assert(tail_join(toks) == seq![32u8] + (t0 + tail_join(rest)));
        lemma_split_bytes(s, i, seq![32u8], t0 + tail_join(rest));
        let p = i + 1;
        lemma_split_bytes(s, p, t0, tail_join(rest));
        let j = p + t0.len();
        assert(s[i] == 32) by {
            assert(s[i] == s.subrange(i, i + 1)[0]);
        }
        if rest.len() > 0 {
            assert(tail_join(rest)[0] == 32);
            assert(s[j] == s.subrange(j, j + tail_join(rest).len())[0]);
            assert(!is_hex_digit(s[j]));
        }
        lemma_hex_token_at(s, p, t0);
        lemma_sep_fields_join_short(s, j, rest, (k - 1) as nat);
    }
}

/// Skipping fields keeps every entry a field.
proof fn lemma_all_hex_skip(toks: Seq<Seq<u8>>, n: int)
    requires
        all_hex_tokens(toks),
        0 <= n <= toks.len(),
    ensures
        all_hex_tokens(toks.skip(n)),
{
    assert forall|m: int| 0 <= m < toks.skip(n).len() implies hex_token(toks.skip(n)[m]) by {
        assert(toks.skip(n)[m] == toks[m + n]);
    }
}

/// One optional-field attempt against the remaining run of fields: where
/// fields remain it takes the first; at the line terminator it takes
/// nothing.
proof fn lemma_opt_step(s: Seq<u8>, p: int, opt: Seq<Seq<u8>>, endpos: int)
    requires
        all_hex_tokens(opt),
        0 <= p,
        p + tail_join(opt).len() == endpos,
        endpos < s.len(),
        s.subrange(p, endpos) == tail_join(opt),
        s[endpos] == 10,
    ensures
        opt.len() == 0 ==> spec_opt_field(s, p) is None,
        opt.len() > 0 ==> spec_opt_field(s, p) == Some(
            (token_val(opt[0]), p + 1 + opt[0].len() as int),
        ) && s.subrange(p + 1 + opt[0].len() as int, endpos) == tail_join(opt.skip(1)) && p + 1
            + opt[0].len() + tail_join(opt.skip(1)).len() == endpos,
{
    if opt.len() == 0 {
        assert(p == endpos);
        assert(s[p] == 10);
    } else {
        let t0 = opt[0];
        let rest = opt.skip(1);
        assert(hex_token(t0));
        lemma_all_hex_skip(opt, 1);
        assert(tail_join(opt) == seq![32u8] + (t0 + tail_join(rest)));
        lemma_split_bytes(s, p, seq![32u8], t0 + tail_join(rest));
        let q = p + 1;
        lemma_split_bytes(s, q, t0, tail_join(rest));
        let j = q + t0.len();
        assert(s[p] == 32) by {
            assert(s[p] == s.subrange(p, p + 1)[0]);
        }
        if rest.len() > 0 {
            assert(tail_join(rest)[0] == 32);
            assert(s[j] == s.subrange(j, j + tail_join(rest).len())[0]);
            assert(!is_hex_digit(s[j]));
        } else {
            assert(j == endpos);
            assert(!is_hex_digit(s[j]));
        }
        lemma_hex_token_at(s, q, t0);
    }
}

/// Where one line of nine to thirteen fields stands at `i`, parsing a
/// line at `i` yields exactly the record its fields spell.
#[verifier::rlimit(100)]
proof fn lemma_parse_line_at(s: Seq<u8>, i: int, toks: Seq<Seq<u8>>)
    requires
        9 <= toks.len() <= 13,
        all_hex_tokens(toks),
        0 <= i,
        i + line_of_tokens(toks).len() <= s.len(),
        s.subrange(i, i + line_of_tokens(toks).len()) == line_of_tokens(toks),
    ensures
        spec_parse_line(s, i) == Ok::<(SoftnetStat, int), (int, ParseErrorKind)>((
            record_of_tokens(toks),
            i + line_of_tokens(toks).len(),
        )),
{
    let t0 = toks[0];
    let toks1 = toks.skip(1);
    assert(hex_token(t0));
    lemma_all_hex_skip(toks, 1);
    lemma_split_bytes(s, i, t0, tail_join(toks1) + seq![10u8]);
    let i1 = i + t0.len();
    lemma_split_bytes(s, i1, tail_join(toks1), seq![10u8]);
    let endpos = i1 + tail_join(toks1).len();
    assert(s[endpos] == 10) by {
        assert(s[endpos] == s.subrange(endpos, endpos + 1)[0]);
    }
    assert(tail_join(toks1)[0] == 32);
    assert(s[i1] == s.subrange(i1, endpos)[0]);
    assert(!is_hex_digit(s[i1]));
    lemma_hex_token_at(s, i, t0);
    lemma_sep_fields_join(s, i1, toks1, 8);
    let vals = token_vals(toks1.take(8));
    let i9 = i1 + tail_join(toks1.take(8)).len();
    lemma_token_vals_index(toks1.take(8));
    let opt = toks1.skip(8);
    assert(opt =~= toks.skip(9));
    assert(endpos - i9 == tail_join(opt).len());
    lemma_all_hex_skip(toks1, 8);
    lemma_opt_step(s, i9, opt, endpos);
    let pr1 = opt.len() > 0;
    let p10 = if pr1 {
        i9 + 1 + opt[0].len() as int
    } else {
        i9
    };
    let o1 = if pr1 {
        opt.skip(1)
    } else {
        opt
    };
    if pr1 {
        lemma_all_hex_skip(opt, 1);
    }
    lemma_opt_step(s, p10, o1, endpos);
    let pr2 = o1.len() > 0;
    let p11 = if pr2 {
        p10 + 1 + o1[0].len() as int
    } else {
        p10
    };
    let o2 = if pr2 {
        o1.skip(1)
    } else {
        o1
    };
    if pr2 {
        lemma_all_hex_skip(o1, 1);
    }
    lemma_opt_step(s, p11, o2, endpos);
    let pr3 = o2.len() > 0;
    let p12 = if pr3 {
        p11 + 1 + o2[0].len() as int
    } else {
        p11
    };
    let o3 = if pr3 {
        o2.skip(1)
    } else {
        o2
    };
    if pr3 {
        lemma_all_hex_skip(o2, 1);
    }
    lemma_opt_step(s, p12, o3, endpos);
    let pr4 = o3.len() > 0;
    let p13 = if pr4 {
        p12 + 1 + o3[0].len() as int
    } else {
        p12
    };
    let o4 = if pr4 {
        o3.skip(1)
    } else {
        o3
    };
    assert(o4.len() == 0);
    assert(p13 == endpos);
    assert(spec_line_ending(s, p13) == Some(endpos + 1));
    assert(vals[0] == token_val(toks[1])) by {
        assert(toks1.take(8)[0] == toks[1]);
    }
    assert(vals[1] == token_val(toks[2])) by {
        assert(toks1.take(8)[1] == toks[2]);
    }
    assert(vals[7] == token_val(toks[8])) by {
        assert(toks1.take(8)[7] == toks[8]);
    }
    assert(pr1 ==> opt[0] == toks[9]);
    assert(pr2 ==> o1[0] == toks[10]) by {
        if pr2 {
            assert(o1[0] == opt[1]);
            assert(opt[1] == toks[10]);
        }
    }
    assert(pr3 ==> o2[0] == toks[11]) by {
        if pr3 {
            assert(o2[0] == o1[1]);
            assert(o1[1] == opt[2]);
            assert(opt[2] == toks[11]);
        }
    }
    assert(pr4 ==> o3[0] == toks[12]) by {
        if pr4 {
            assert(o3[0] == o2[1]);
            assert(o2[1] == o1[2]);
            assert(o1[2] == opt[3]);
            assert(opt[3] == toks[12]);
        }
    }
    assert(pr1 <==> toks.len() > 9);
    assert(pr2 <==> toks.len() > 10);
    assert(pr3 <==> toks.len() > 11);
    assert(pr4 <==> toks.len() > 12);
    assert(endpos + 1 == i + line_of_tokens(toks).len());
}

/// Law: one line of nine to thirteen fields parses to exactly the record
/// its fields spell (see `record_of_tokens`): ten to thirteen fields fill
/// exactly the first one to four optional fields in fixed order and
/// leave the rest absent; a later optional field is never filled while an
/// earlier one is skipped.
pub proof fn lemma_parse_line_of_tokens(toks: Seq<Seq<u8>>)
    requires
        9 <= toks.len() <= 13,
        all_hex_tokens(toks),
    ensures
        spec_parse_line(line_of_tokens(toks), 0) == Ok::<
            (SoftnetStat, int),
            (int, ParseErrorKind),
        >((record_of_tokens(toks), line_of_tokens(toks).len() as int)),
{
    let s = line_of_tokens(toks);
    assert(s.subrange(0, s.len() as int) =~= s);
    lemma_parse_line_at(s, 0, toks);
}

/// Every line of a well-formed input holds nine to thirteen fields.
pub open spec fn well_formed_lines(lines: Seq<Seq<Seq<u8>>>) -> bool {
    forall|i: int|
        0 <= i < lines.len() ==> 9 <= (#[trigger] lines[i]).len() <= 13 && all_hex_tokens(
            lines[i],
        )
}

/// Where a well-formed input stands at `i` and reaches the very end of
/// `s`, parsing lines from `i` yields its records.
proof fn lemma_parse_lines_at(s: Seq<u8>, i: int, lines: Seq<Seq<Seq<u8>>>)
    requires
        lines.len() >= 1,
        well_formed_lines(lines),
        0 <= i,
        i + input_of_lines(lines).len() == s.len(),
        s.subrange(i, s.len() as int) == input_of_lines(lines),
    ensures
        spec_parse_lines(s, i) == Ok::<Seq<SoftnetStat>, (int, ParseErrorKind)>(
            records_of_lines(lines),
        ),
    decreases lines.len(),
{
    let line0 = line_of_tokens(lines[0]);
    let rest = input_of_lines(lines.skip(1));
    lemma_split_bytes(s, i, line0, rest);
    lemma_parse_line_at(s, i, lines[0]);
    let j = i + line0.len();
    if lines.len() == 1 {
        assert(input_of_lines(lines.skip(1)) == Seq::<u8>::empty()) by {
            assert(lines.skip(1).len() == 0);
        }
        assert(j == s.len());
        assert(records_of_lines(lines) =~= seq![record_of_tokens(lines[0])]) by {
            reveal_with_fuel(records_of_lines, 2);
        }
    } else {
        assert(well_formed_lines(lines.skip(1))) by {
            assert forall|m: int|
                0 <= m < lines.skip(1).len() implies 9 <= (#[trigger] lines.skip(1)[m]).len() <= 13
                && all_hex_tokens(lines.skip(1)[m]) by {
                assert(lines.skip(1)[m] == lines[m + 1]);
            }
        }
        assert(rest.len() >= 1) by {
            assert(rest == line_of_tokens(lines.skip(1)[0]) + input_of_lines(lines.skip(1).skip(1)));
        }
        assert(j < s.len());
        lemma_parse_lines_at(s, j, lines.skip(1));
    }
}

/// Law: a whole input of well-formed lines parses, and yields one record
/// per line, in file order, each the record its line's fields spell; in
/// particular an input whose lines all hold exactly nine fields yields
/// records with all four optional fields absent.
pub proof fn lemma_parse_input_of_lines(lines: Seq<Seq<Seq<u8>>>)
    requires
        lines.len() >= 1,
        well_formed_lines(lines),
    ensures
        spec_parse(input_of_lines(lines)) == Ok::<Seq<SoftnetStat>, (int, ParseErrorKind)>(
            records_of_lines(lines),
        ),
        records_of_lines(lines).len() == lines.len(),
        forall|i: int|
            0 <= i < lines.len() ==> #[trigger] records_of_lines(lines)[i] == record_of_tokens(
                lines[i],
            ),
{
    let s = input_of_lines(lines);
    assert(s == line_of_tokens(lines[0]) + input_of_lines(lines.skip(1)));
    assert(s.len() >= 1) by {
        assert(line_of_tokens(lines[0]).len() >= 1);
    }
    assert(s.subrange(0, s.len() as int) =~= s);
    lemma_parse_lines_at(s, 0, lines);
    lemma_records_of_lines_index(lines);
}

/// Law: in any parsed record, whatever the input bytes, the presence of
/// the optional fields is a prefix of their fixed order: a later optional
/// field is never present while an earlier one is absent. The attempts
/// share one position, so an absent field leaves every later attempt
/// looking at the same bytes.
pub proof fn lemma_optional_presence_is_monotone(s: Seq<u8>, i: int)
    ensures
        spec_parse_line(s, i) matches Ok((r, j)) ==> ((r.cpu_id is Some ==> r.backlog_len is Some)
            && (r.backlog_len is Some ==> r.flow_limit_count is Some) && (
        r.flow_limit_count is Some ==> r.received_rps is Some)),
{
}

/// Law: a line with fewer than nine fields always fails the whole parse,
/// whatever its fields spell and whatever follows the line.
pub proof fn lemma_short_line_fails(toks: Seq<Seq<u8>>, rest: Seq<u8>)
    requires
        1 <= toks.len() < 9,
        all_hex_tokens(toks),
    ensures
        spec_parse(line_of_tokens(toks) + rest) is Err,
{
    let line = line_of_tokens(toks);
    let s = line + rest;
    let t0 = toks[0];
    let toks1 = toks.skip(1);
    assert(hex_token(t0));
    lemma_all_hex_skip(toks, 1);
    assert(s.subrange(0, line.len() as int) =~= line) by {
        assert forall|k: int| 0 <= k < line.len() implies s.subrange(0, line.len() as int)[k]
            == line[k] by {
            assert(s[k] == (line + rest)[k]);
        }
    }
    lemma_split_bytes(s, 0, t0, tail_join(toks1) + seq![10u8]);
    let i1 = t0.len() as int;
    lemma_split_bytes(s, i1, tail_join(toks1), seq![10u8]);
    let endpos = i1 + tail_join(toks1).len();
    assert(s[endpos] == 10) by {
        assert(s[endpos] == s.subrange(endpos, endpos + 1)[0]);
    }
    if toks1.len() > 0 {
        assert(tail_join(toks1)[0] == 32);
        assert(s[i1] == s.subrange(i1, endpos)[0]);
        assert(!is_hex_digit(s[i1]));
    } else {
        assert(i1 == endpos);
        assert(!is_hex_digit(s[i1]));
    }
    lemma_hex_token_at(s, 0, t0);
    lemma_sep_fields_join_short(s, i1, toks1, 8);
    assert(s.len() > 0);
    assert(spec_parse_line(s, 0) is Err);
}

} // verus!
