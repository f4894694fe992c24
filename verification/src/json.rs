//! The JSON renderer: an array of objects, one per record, every field
//! named, absent optional fields as `null`; and the proof that decoding
//! what it emits gives the same records back.

use vstd::prelude::*;
use crate::digits::{dec_str, is_dec_digit, lemma_dec_str_digits, lemma_dec_str_parses,
    lemma_parse_dec_advances, spec_parse_dec};
use crate::softnet::SoftnetStat;
use crate::table::lemma_concat_assoc;

verus! {

/// The JSON text of one optional counter: its number, or `null`.
pub open spec fn json_opt(v: Option<u32>) -> Seq<char> {
    match v {
        Some(x) => dec_str(x as nat),
        None => "null"@,
    }
}

/// The JSON text of one record: one object, the eight fields in column
/// order.
pub open spec fn json_record(r: SoftnetStat) -> Seq<char> {
    "{\"processed\":"@ + (dec_str(r.processed as nat) + (",\"dropped\":"@ + (dec_str(
        r.dropped as nat,
    ) + (",\"time_squeeze\":"@ + (dec_str(r.time_squeeze as nat) + (",\"cpu_collision\":"@ + (
    dec_str(r.cpu_collision as nat) + (",\"received_rps\":"@ + (json_opt(r.received_rps) + (
    ",\"flow_limit_count\":"@ + (json_opt(r.flow_limit_count) + (",\"backlog_len\":"@ + (json_opt(
        r.backlog_len,
    ) + (",\"cpu_id\":"@ + (json_opt(r.cpu_id) + "}"@)))))))))))))))
}

/// The JSON of the records from position `k` on, each preceded by a
/// comma.
pub open spec fn json_tail_from(rs: Seq<SoftnetStat>, k: int) -> Seq<char>
    decreases rs.len() - k,
{
    if k < 0 || k >= rs.len() {
        Seq::empty()
    } else {
        ","@ + (json_record(rs[k]) + json_tail_from(rs, k + 1))
    }
}

/// The JSON text of a record sequence: an array of the records' objects
/// in sequence order.
pub open spec fn json_text(rs: Seq<SoftnetStat>) -> Seq<char> {
    if rs.len() == 0 {
        "[]"@
    } else {
        "["@ + (json_record(rs[0]) + (json_tail_from(rs, 1) + "]"@))
    }
}

/// Append one number.
fn push_dec(out: &mut String, value: u32)
    ensures
        final(out)@ == old(out)@ + dec_str(value as nat),
{
    let text = crate::digits::u64_dec_string(value as u64);
    out.append(text.as_str());
}

/// Append one optional counter: its number, or `null`.
fn push_json_opt(out: &mut String, v: Option<u32>)
    ensures
        final(out)@ == old(out)@ + json_opt(v),
{
    match v {
        Some(x) => push_dec(out, x),
        None => out.append("null"),
    }
}

/// Append the object of one record.
fn push_json_record(out: &mut String, r: SoftnetStat)
    ensures
        final(out)@ == old(out)@ + json_record(r),
{
    let ghost p0 = out@;
    let ghost s17 = "}"@;
    let ghost s16 = json_opt(r.cpu_id) + s17;
    let ghost s15 = ",\"cpu_id\":"@ + s16;
    let ghost s14 = json_opt(r.backlog_len) + s15;
    let ghost s13 = ",\"backlog_len\":"@ + s14;
    let ghost s12 = json_opt(r.flow_limit_count) + s13;
    let ghost s11 = ",\"flow_limit_count\":"@ + s12;
    let ghost s10 = json_opt(r.received_rps) + s11;
    let ghost s9 = ",\"received_rps\":"@ + s10;
    let ghost s8 = dec_str(r.cpu_collision as nat) + s9;
    let ghost s7 = ",\"cpu_collision\":"@ + s8;
    let ghost s6 = dec_str(r.time_squeeze as nat) + s7;
    let ghost s5 = ",\"time_squeeze\":"@ + s6;
    let ghost s4 = dec_str(r.dropped as nat) + s5;
    let ghost s3 = ",\"dropped\":"@ + s4;
    let ghost s2 = dec_str(r.processed as nat) + s3;
    let ghost s1 = "{\"processed\":"@ + s2;
    proof {
        assert(s1 == json_record(r));
    }
    out.append("{\"processed\":");
    proof {
        lemma_concat_assoc(p0, "{\"processed\":"@, s2);
    }
    let ghost g1 = out@;
    push_dec(out, r.processed);
    proof {
        lemma_concat_assoc(g1, dec_str(r.processed as nat), s3);
    }
    let ghost g2 = out@;
    out.append(",\"dropped\":");
    proof {
        lemma_concat_assoc(g2, ",\"dropped\":"@, s4);
    }
    let ghost g3 = out@;
    push_dec(out, r.dropped);
    proof {
        lemma_concat_assoc(g3, dec_str(r.dropped as nat), s5);
    }
    let ghost g4 = out@;
    out.append(",\"time_squeeze\":");
    proof {
        lemma_concat_assoc(g4, ",\"time_squeeze\":"@, s6);
    }
    let ghost g5 = out@;
    push_dec(out, r.time_squeeze);
    proof {
        lemma_concat_assoc(g5, dec_str(r.time_squeeze as nat), s7);
    }
    let ghost g6 = out@;
    out.append(",\"cpu_collision\":");
    proof {
        lemma_concat_assoc(g6, ",\"cpu_collision\":"@, s8);
    }
    let ghost g7 = out@;
    push_dec(out, r.cpu_collision);
    proof {
        lemma_concat_assoc(g7, dec_str(r.cpu_collision as nat), s9);
    }
    let ghost g8 = out@;
    out.append(",\"received_rps\":");
    proof {
        lemma_concat_assoc(g8, ",\"received_rps\":"@, s10);
    }
    let ghost g9 = out@;
    push_json_opt(out, r.received_rps);
    proof {
        lemma_concat_assoc(g9, json_opt(r.received_rps), s11);
    }
    let ghost g10 = out@;
    out.append(",\"flow_limit_count\":");
    proof {
        lemma_concat_assoc(g10, ",\"flow_limit_count\":"@, s12);
    }
    let ghost g11 = out@;
    push_json_opt(out, r.flow_limit_count);
    proof {
        lemma_concat_assoc(g11, json_opt(r.flow_limit_count), s13);
    }
    let ghost g12 = out@;
    out.append(",\"backlog_len\":");
    proof {
        lemma_concat_assoc(g12, ",\"backlog_len\":"@, s14);
    }
    let ghost g13 = out@;
    push_json_opt(out, r.backlog_len);
    proof {
        lemma_concat_assoc(g13, json_opt(r.backlog_len), s15);
    }
    let ghost g14 = out@;
    out.append(",\"cpu_id\":");
    proof {
        lemma_concat_assoc(g14, ",\"cpu_id\":"@, s16);
    }
    let ghost g15 = out@;
    push_json_opt(out, r.cpu_id);
    proof {
        lemma_concat_assoc(g15, json_opt(r.cpu_id), s17);
    }
    out.append("}");
    proof {
        assert(out@ == p0 + json_record(r));
    }
}

/// Render the records as one JSON array: the objects in sequence order,
/// exactly as `json_text` describes, stable and round-trippable.
pub fn render_json(stats: &[SoftnetStat]) -> (out: String)
    ensures
        out@ == json_text(stats@),
{
    let mut out = String::new();
    if stats.len() == 0 {
        out.append("[]");
        proof {
            assert(out@ =~= "[]"@);
        }
        return out;
    }
    let ghost e2 = json_tail_from(stats@, 1) + "]"@;
    let ghost e1 = json_record(stats@[0]) + e2;
    out.append("[");
    proof {
        assert(out@ =~= "["@);
        lemma_concat_assoc(Seq::<char>::empty(), "["@, e1);
    }
    let ghost g0 = out@;
    let first = stats[0];
    push_json_record(&mut out, first);
    proof {
        lemma_concat_assoc(g0, json_record(stats@[0]), e2);
        assert(out@ + e2 == json_text(stats@));
    }
    let mut i: usize = 1;
    while i < stats.len()
        invariant
            1 <= i <= stats@.len(),
            out@ + (json_tail_from(stats@, i as int) + "]"@) == json_text(stats@),
        decreases stats@.len() - i,
    {
        let ghost before = out@;
        let ghost rec = json_record(stats@[i as int]);
        let ghost tail1 = json_tail_from(stats@, i as int + 1);
        proof {
            assert(json_tail_from(stats@, i as int) == ","@ + (rec + tail1));
            lemma_concat_assoc(","@, rec + tail1, "]"@);
            lemma_concat_assoc(before, ","@, (rec + tail1) + "]"@);
            lemma_concat_assoc(rec, tail1, "]"@);
        }
        out.append(",");
        proof {
            lemma_concat_assoc(before + ","@, rec, tail1 + "]"@);
        }
        let ghost g1 = out@;
        let stat = stats[i];
        push_json_record(&mut out, stat);
        proof {
            assert(out@ == g1 + rec);
            assert(out@ + (json_tail_from(stats@, i as int + 1) + "]"@) == json_text(stats@));
        }
        i = i + 1;
    }
    proof {
        assert(json_tail_from(stats@, stats@.len() as int) + "]"@ =~= "]"@);
    }
    out.append("]");
    proof {
        assert(out@ == json_text(stats@));
    }
    out
}

/// Expect the exact text `pat` at `i`: the position just past it, or
/// `None` where something else stands there.
pub open spec fn spec_expect(s: Seq<char>, i: int, pat: Seq<char>) -> Option<int> {
    if 0 <= i && i + pat.len() <= s.len() && s.subrange(i, i + pat.len()) == pat {
        Some(i + pat.len())
    } else {
        None
    }
}

/// Decode one optional counter: `null`, or a number that fits 32 bits.
pub open spec fn spec_decode_value(s: Seq<char>, i: int) -> Option<(Option<u32>, int)> {
    match spec_expect(s, i, "null"@) {
        Some(j) => Some((None, j)),
        None => match spec_parse_dec(s, i) {
            Some((n, j)) => if n < 0x100000000 {
                Some((Some(n as u32), j))
            } else {
                None
            },
            None => None,
        },
    }
}

/// Decode one mandatory field: the expected text, then its number.
pub open spec fn spec_num_field(s: Seq<char>, i: int, pat: Seq<char>) -> Option<(u32, int)> {
    match spec_expect(s, i, pat) {
        None => None,
        Some(j) => match spec_parse_dec(s, j) {
            Some((n, k)) => if n < 0x100000000 {
                Some((n as u32, k))
            } else {
                None
            },
            None => None,
        },
    }
}

/// Decode one optional field: the expected text, then its value.
pub open spec fn spec_opt_json_field(s: Seq<char>, i: int, pat: Seq<char>) -> Option<
    (Option<u32>, int),
> {
    match spec_expect(s, i, pat) {
        None => None,
        Some(j) => spec_decode_value(s, j),
    }
}

/// Decode one record object, in the form `json_record` emits.
pub open spec fn spec_decode_record(s: Seq<char>, i: int) -> Option<(SoftnetStat, int)> {
    match spec_num_field(s, i, "{\"processed\":"@) {
        None => None,
        Some((processed, i1)) => match spec_num_field(s, i1, ",\"dropped\":"@) {
            None => None,
            Some((dropped, i2)) => match spec_num_field(s, i2, ",\"time_squeeze\":"@) {
                None => None,
                Some((time_squeeze, i3)) => match spec_num_field(s, i3, ",\"cpu_collision\":"@) {
                    None => None,
                    Some((cpu_collision, i4)) => match spec_opt_json_field(
                        s,
                        i4,
                        ",\"received_rps\":"@,
                    ) {
                        None => None,
                        Some((received_rps, i5)) => match spec_opt_json_field(
                            s,
                            i5,
                            ",\"flow_limit_count\":"@,
                        ) {
                            None => None,
                            Some((flow_limit_count, i6)) => match spec_opt_json_field(
                                s,
                                i6,
                                ",\"backlog_len\":"@,
                            ) {
                                None => None,
                                Some((backlog_len, i7)) => match spec_opt_json_field(
                                    s,
                                    i7,
                                    ",\"cpu_id\":"@,
                                ) {
                                    None => None,
                                    Some((cpu_id, i8)) => match spec_expect(s, i8, "}"@) {
                                        None => None,
                                        Some(end) => Some(
                                            (
                                                SoftnetStat {
                                                    processed,
                                                    dropped,
                                                    time_squeeze,
                                                    cpu_collision,
                                                    received_rps,
                                                    flow_limit_count,
                                                    backlog_len,
                                                    cpu_id,
                                                },
                                                end,
                                            ),
                                        ),
                                    },
                                },
                            },
                        },
                    },
                },
            },
        },
    }
}

/// A decoded value advances the position and stays in bounds.
proof fn lemma_decode_value_advances(s: Seq<char>, i: int)
    ensures
        spec_decode_value(s, i) matches Some((v, j)) ==> i < j <= s.len(),
{
    reveal_strlit("null");
    lemma_parse_dec_advances(s, i);
}

/// A decoded mandatory field advances the position and stays in bounds.
proof fn lemma_num_field_advances(s: Seq<char>, i: int, pat: Seq<char>)
    ensures
        spec_num_field(s, i, pat) matches Some((n, k)) ==> i <= k <= s.len(),
{
    match spec_expect(s, i, pat) {
        None => {},
        Some(j) => {
            lemma_parse_dec_advances(s, j);
        },
    }
}

/// A decoded record advances the position and stays in bounds.
proof fn lemma_decode_record_advances(s: Seq<char>, i: int)
    ensures
        spec_decode_record(s, i) matches Some((r, m)) ==> i < m <= s.len(),
{
    reveal_strlit("}");
    lemma_num_field_advances(s, i, "{\"processed\":"@);
    match spec_num_field(s, i, "{\"processed\":"@) {
        None => {},
        Some((_, i1)) => {
            lemma_num_field_advances(s, i1, ",\"dropped\":"@);
            match spec_num_field(s, i1, ",\"dropped\":"@) {
                None => {},
                Some((_, i2)) => {
                    lemma_num_field_advances(s, i2, ",\"time_squeeze\":"@);
                    match spec_num_field(s, i2, ",\"time_squeeze\":"@) {
                        None => {},
                        Some((_, i3)) => {
                            lemma_num_field_advances(s, i3, ",\"cpu_collision\":"@);
                            match spec_num_field(s, i3, ",\"cpu_collision\":"@) {
                                None => {},
                                Some((_, i4)) => {
                                    lemma_opt_json_field_advances(s, i4, ",\"received_rps\":"@);
                                    match spec_opt_json_field(s, i4, ",\"received_rps\":"@) {
                                        None => {},
                                        Some((_, i5)) => {
                                            lemma_opt_json_field_advances(
                                                s,
                                                i5,
                                                ",\"flow_limit_count\":"@,
                                            );
                                            match spec_opt_json_field(
                                                s,
                                                i5,
                                                ",\"flow_limit_count\":"@,
                                            ) {
                                                None => {},
                                                Some((_, i6)) => {
                                                    lemma_opt_json_field_advances(
                                                        s,
                                                        i6,
                                                        ",\"backlog_len\":"@,
                                                    );
                                                    match spec_opt_json_field(
                                                        s,
                                                        i6,
                                                        ",\"backlog_len\":"@,
                                                    ) {
                                                        None => {},
                                                        Some((_, i7)) => {
                                                            lemma_opt_json_field_advances(
                                                                s,
                                                                i7,
                                                                ",\"cpu_id\":"@,
                                                            );
                                                        },
                                                    }
                                                },
                                            }
                                        },
                                    }
                                },
                            }
                        },
                    }
                },
            }
        },
    }
}

/// A decoded optional field advances the position and stays in bounds.
proof fn lemma_opt_json_field_advances(s: Seq<char>, i: int, pat: Seq<char>)
    ensures
        spec_opt_json_field(s, i, pat) matches Some((v, k)) ==> i <= k <= s.len(),
{
    match spec_expect(s, i, pat) {
        None => {},
        Some(j) => {
            lemma_decode_value_advances(s, j);
        },
    }
}

/// Decode the rest of the array after one record: either the closing
/// bracket, or a comma and a further record, and so on.
pub open spec fn spec_decode_tail(s: Seq<char>, i: int) -> Option<(Seq<SoftnetStat>, int)>
    decreases s.len() - i,
        when 0 <= i <= s.len()
        via spec_decode_tail_decreases
{
    match spec_expect(s, i, "]"@) {
        Some(j) => Some((Seq::empty(), j)),
        None => match spec_expect(s, i, ","@) {
            None => None,
            Some(j) => match spec_decode_record(s, j) {
                None => None,
                Some((r, m)) => match spec_decode_tail(s, m) {
                    None => None,
                    Some((rs, end)) => Some((seq![r] + rs, end)),
                },
            },
        },
    }
}

#[via_fn]
proof fn spec_decode_tail_decreases(s: Seq<char>, i: int) {
    reveal_strlit(",");
    match spec_expect(s, i, ","@) {
        None => {},
        Some(j) => {
            lemma_decode_record_advances(s, j);
        },
    }
}

/// Splitting a known stretch of text: where `a + b` stands at `i`, the
/// text `a` stands at `i` and `b` just past it.
proof fn lemma_split_prefix(s: Seq<char>, i: int, a: Seq<char>, b: Seq<char>)
    requires
        0 <= i,
        i + a.len() + b.len() <= s.len(),
        s.subrange(i, i + a.len() + b.len()) == a + b,
    ensures
        s.subrange(i, i + a.len()) == a,
        s.subrange(i + a.len(), i + a.len() + b.len()) == b,
        spec_expect(s, i, a) == Some(i + a.len()),
{
    let whole = s.subrange(i, i + a.len() + b.len());
    assert(s.subrange(i, i + a.len()) =~= a) by {
        assert forall|k: int| 0 <= k < a.len() implies s.subrange(i, i + a.len())[k] == a[k] by {
            assert(s[i + k] == whole[k]);
            assert(whole[k] == (a + b)[k]);
        }
    }
    assert(s.subrange(i + a.len(), i + a.len() + b.len()) =~= b) by {
        assert forall|k: int|
            0 <= k < b.len() implies s.subrange(i + a.len(), i + a.len() + b.len())[k] == b[k] by {
            assert(s[i + a.len() + k] == whole[a.len() + k]);
            assert(whole[a.len() + k] == (a + b)[a.len() + k]);
        }
    }
}

/// Where the rendering of `n` stands at `i` followed by `rest`, whose
/// first character is no digit, reading a number at `i` yields `n`.
proof fn lemma_num_at(s: Seq<char>, i: int, n: nat, rest: Seq<char>)
    requires
        0 <= i,
        i + dec_str(n).len() + rest.len() <= s.len(),
        s.subrange(i, i + dec_str(n).len() + rest.len()) == dec_str(n) + rest,
        rest.len() > 0,
        !is_dec_digit(rest[0]),
    ensures
        spec_parse_dec(s, i) == Some((n, i + dec_str(n).len())),
        s.subrange(i + dec_str(n).len(), i + dec_str(n).len() + rest.len()) == rest,
{
    let dl = dec_str(n).len();
    lemma_split_prefix(s, i, dec_str(n), rest);
    assert(s[i + dl] == s.subrange(i + dl, i + dl + rest.len())[0]);
    lemma_dec_str_parses(s, i, n);
}

/// Where the text of an optional counter stands at `i` followed by
/// `rest`, whose first character is no digit, decoding a value at `i`
/// yields the counter.
proof fn lemma_decode_value_encoded(s: Seq<char>, i: int, v: Option<u32>, rest: Seq<char>)
    requires
        0 <= i,
        i + json_opt(v).len() + rest.len() <= s.len(),
        s.subrange(i, i + json_opt(v).len() + rest.len()) == json_opt(v) + rest,
        rest.len() > 0,
        !is_dec_digit(rest[0]),
    ensures
        spec_decode_value(s, i) == Some((v, i + json_opt(v).len())),
        s.subrange(i + json_opt(v).len(), i + json_opt(v).len() + rest.len()) == rest,
{
    reveal_strlit("null");
    let jl = json_opt(v).len();
    lemma_split_prefix(s, i, json_opt(v), rest);
    match v {
        None => {},
        Some(x) => {
            lemma_dec_str_digits(x as nat);
            assert(s[i] == s.subrange(i, i + jl)[0]);
            assert(is_dec_digit(s[i]));
            if 0 <= i && i + "null"@.len() <= s.len() && s.subrange(i, i + "null"@.len())
                == "null"@ {
                assert(s[i] == s.subrange(i, i + 4)[0]);
                assert(s[i] == 'n');
                assert(false);
            }
            lemma_num_at(s, i, x as nat, rest);
        },
    }
}

/// Where the object of record `r` stands at `i`, decoding a record at
/// `i` yields `r` and stops just past the object.
#[verifier::rlimit(100)]
#[verifier::spinoff_prover]
proof fn lemma_decode_record_encoded(s: Seq<char>, i: int, r: SoftnetStat)
    requires
        0 <= i,
        i + json_record(r).len() <= s.len(),
        s.subrange(i, i + json_record(r).len()) == json_record(r),
    ensures
        spec_decode_record(s, i) == Some((r, i + json_record(r).len())),
{
    reveal_strlit("{\"processed\":");
    reveal_strlit(",\"dropped\":");
    reveal_strlit(",\"time_squeeze\":");
    reveal_strlit(",\"cpu_collision\":");
    reveal_strlit(",\"received_rps\":");
    reveal_strlit(",\"flow_limit_count\":");
    reveal_strlit(",\"backlog_len\":");
    reveal_strlit(",\"cpu_id\":");
    reveal_strlit("}");
    let l1 = "{\"processed\":"@;
    let l2 = ",\"dropped\":"@;
    let l3 = ",\"time_squeeze\":"@;
    let l4 = ",\"cpu_collision\":"@;
    let l5 = ",\"received_rps\":"@;
    let l6 = ",\"flow_limit_count\":"@;
    let l7 = ",\"backlog_len\":"@;
    let l8 = ",\"cpu_id\":"@;
    let l9 = "}"@;
    let s17 = l9;
    let s16 = json_opt(r.cpu_id) + s17;
    let s15 = l8 + s16;
    let s14 = json_opt(r.backlog_len) + s15;
    let s13 = l7 + s14;
    let s12 = json_opt(r.flow_limit_count) + s13;
    let s11 = l6 + s12;
    let s10 = json_opt(r.received_rps) + s11;
    let s9 = l5 + s10;
    let s8 = dec_str(r.cpu_collision as nat) + s9;
    let s7 = l4 + s8;
    let s6 = dec_str(r.time_squeeze as nat) + s7;
    let s5 = l3 + s6;
    let s4 = dec_str(r.dropped as nat) + s5;
    let s3 = l2 + s4;
    let s2 = dec_str(r.processed as nat) + s3;
    let s1 = l1 + s2;
    assert(s1 == json_record(r));
    let p0 = i;
    let p1 = p0 + l1.len();
    lemma_split_prefix(s, p0, l1, s2);
    let q1 = p1 + dec_str(r.processed as nat).len();
    lemma_num_at(s, p1, r.processed as nat, s3);
    assert(spec_num_field(s, p0, l1) == Some((r.processed, q1)));
    let p2 = q1 + l2.len();
    lemma_split_prefix(s, q1, l2, s4);
    let q2 = p2 + dec_str(r.dropped as nat).len();
    lemma_num_at(s, p2, r.dropped as nat, s5);
    assert(spec_num_field(s, q1, l2) == Some((r.dropped, q2)));
    let p3 = q2 + l3.len();
    lemma_split_prefix(s, q2, l3, s6);
    let q3 = p3 + dec_str(r.time_squeeze as nat).len();
    lemma_num_at(s, p3, r.time_squeeze as nat, s7);
    assert(spec_num_field(s, q2, l3) == Some((r.time_squeeze, q3)));
    let p4 = q3 + l4.len();
    lemma_split_prefix(s, q3, l4, s8);
    let q4 = p4 + dec_str(r.cpu_collision as nat).len();
    lemma_num_at(s, p4, r.cpu_collision as nat, s9);
    assert(spec_num_field(s, q3, l4) == Some((r.cpu_collision, q4)));
    let p5 = q4 + l5.len();
    lemma_split_prefix(s, q4, l5, s10);
    let q5 = p5 + json_opt(r.received_rps).len();
    lemma_decode_value_encoded(s, p5, r.received_rps, s11);
    assert(spec_opt_json_field(s, q4, l5) == Some((r.received_rps, q5)));
    let p6 = q5 + l6.len();
    lemma_split_prefix(s, q5, l6, s12);
    let q6 = p6 + json_opt(r.flow_limit_count).len();
    lemma_decode_value_encoded(s, p6, r.flow_limit_count, s13);
    assert(spec_opt_json_field(s, q5, l6) == Some((r.flow_limit_count, q6)));
    let p7 = q6 + l7.len();
    lemma_split_prefix(s, q6, l7, s14);
    let q7 = p7 + json_opt(r.backlog_len).len();
    lemma_decode_value_encoded(s, p7, r.backlog_len, s15);
    assert(spec_opt_json_field(s, q6, l7) == Some((r.backlog_len, q7)));
    let p8 = q7 + l8.len();
    lemma_split_prefix(s, q7, l8, s16);
    let q8 = p8 + json_opt(r.cpu_id).len();
    lemma_decode_value_encoded(s, p8, r.cpu_id, s17);
    assert(spec_opt_json_field(s, q7, l8) == Some((r.cpu_id, q8)));
    assert(spec_expect(s, q8, l9) == Some(q8 + l9.len()));
    assert(spec_decode_record(s, i) == Some((r, i + json_record(r).len())));
}

/// Where the records from `k` on and the closing bracket fill `s` from
/// `i` to its end, decoding the tail yields those records and consumes
/// everything.
#[verifier::rlimit(100)]
#[verifier::spinoff_prover]
proof fn lemma_decode_tail_encoded(s: Seq<char>, i: int, rs: Seq<SoftnetStat>, k: int)
    requires
        0 <= k <= rs.len(),
        0 <= i,
        i + (json_tail_from(rs, k) + "]"@).len() == s.len(),
        s.subrange(i, s.len() as int) == json_tail_from(rs, k) + "]"@,
    ensures
        spec_decode_tail(s, i) == Some((rs.skip(k), s.len() as int)),
    decreases rs.len() - k,
{
    reveal_strlit("]");
    reveal_strlit(",");
    reveal_strlit("{\"processed\":");
    let tl = json_tail_from(rs, k);
    if k == rs.len() {
        assert(tl + "]"@ =~= "]"@);
        assert(spec_expect(s, i, "]"@) == Some(i + 1));
        assert(rs.skip(k) =~= Seq::<SoftnetStat>::empty());
    } else {
        let rec = json_record(rs[k]);
        let tail1 = json_tail_from(rs, k + 1);
        assert(tl == ","@ + (rec + tail1));
        lemma_concat_assoc(","@, rec + tail1, "]"@);
        lemma_concat_assoc(rec, tail1, "]"@);
        let x = rec + (tail1 + "]"@);
        assert(tl + "]"@ == ","@ + x);
        assert(s[i] == s.subrange(i, s.len() as int)[0]);
        assert(s[i] == ',');
        if 0 <= i && i + 1 <= s.len() && s.subrange(i, i + 1) == "]"@ {
            assert(s[i] == s.subrange(i, i + 1)[0]);
            assert(s[i] == ']');
            assert(false);
        }
        lemma_split_prefix(s, i, ","@, x);
        let p = i + 1;
        lemma_split_prefix(s, p, rec, tail1 + "]"@);
        lemma_decode_record_encoded(s, p, rs[k]);
        let m = p + rec.len();
        lemma_decode_tail_encoded(s, m, rs, k + 1);
        assert(seq![rs[k]] + rs.skip(k + 1) =~= rs.skip(k));
    }
}

/// The round trip on a sequence of at least one record.
#[verifier::rlimit(100)]
#[verifier::spinoff_prover]
proof fn lemma_json_round_trip_nonempty(rs: Seq<SoftnetStat>)
    requires
        rs.len() >= 1,
    ensures
        spec_json_decode(json_text(rs)) == Some(rs),
{
    reveal_strlit("[]");
    reveal_strlit("[");
    reveal_strlit("]");
    let s = json_text(rs);
    let rec = json_record(rs[0]);
    let tail1 = json_tail_from(rs, 1);
    let x = rec + (tail1 + "]"@);
    assert(s == "["@ + x);
    lemma_json_record_first_char(rs[0]);
    assert(s[1] == '{') by {
        assert(s[1] == x[0]);
        assert(x[0] == rec[0]);
    }
    assert(spec_expect(s, 0, "[]"@) is None) by {
        if 2 <= s.len() && s.subrange(0, 2) == "[]"@ {
            assert(s[1] == s.subrange(0, 2)[1]);
            assert(s[1] == ']');
            assert(false);
        }
    }
    assert(s.subrange(0, s.len() as int) =~= s);
    lemma_split_prefix(s, 0, "["@, x);
    assert(spec_expect(s, 0, "["@) == Some(1int));
    lemma_split_prefix(s, 1, rec, tail1 + "]"@);
    lemma_decode_record_encoded(s, 1, rs[0]);
    let m: int = 1 + rec.len() as int;
    assert(spec_decode_record(s, 1) == Some((rs[0], m)));
    lemma_decode_tail_encoded(s, m, rs, 1);
    assert(spec_decode_tail(s, m) == Some((rs.skip(1), s.len() as int)));
    assert(seq![rs[0]] + rs.skip(1) =~= rs);
    assert(spec_json_decode(s) == Some(seq![rs[0]] + rs.skip(1)));
}

/// A record's object is at least its first label long and opens with a
/// brace.
proof fn lemma_json_record_first_char(r: SoftnetStat)
    ensures
        json_record(r).len() >= 13,
        json_record(r)[0] == '{',
{
    reveal_strlit("{\"processed\":");
}

/// Law: decoding the JSON rendering of any record sequence yields the
/// same sequence back, the presence and absence of every optional field
/// included.
#[verifier::spinoff_prover]
pub proof fn lemma_json_round_trip(rs: Seq<SoftnetStat>)
    ensures
        spec_json_decode(json_text(rs)) == Some(rs),
{
    if rs.len() == 0 {
        reveal_strlit("[]");
        let s = json_text(rs);
        assert(s == "[]"@);
        assert(s.subrange(0, 2) =~= s);
        assert(spec_expect(s, 0, "[]"@) == Some(2int));
        assert(rs =~= Seq::<SoftnetStat>::empty());
    } else {
        lemma_json_round_trip_nonempty(rs);
    }
}

/// Decode a whole record array, in the form `json_text` emits: the
/// decoding must consume the entire text.
pub open spec fn spec_json_decode(s: Seq<char>) -> Option<Seq<SoftnetStat>> {
    match spec_expect(s, 0, "[]"@) {
        Some(j) => if j == s.len() {
            Some(Seq::empty())
        } else {
            None
        },
        None => match spec_expect(s, 0, "["@) {
            None => None,
            Some(j0) => match spec_decode_record(s, j0) {
                None => None,
                Some((r, m)) => match spec_decode_tail(s, m) {
                    None => None,
                    Some((rs, end)) => if end == s.len() {
                        Some(seq![r] + rs)
                    } else {
                        None
                    },
                },
            },
        },
    }
}

} // verus!
