//! The table renderer: fixed-width, left-justified columns.

use vstd::prelude::*;
use crate::digits::dec_str;
use crate::softnet::SoftnetStat;

verus! {

/// `n` space characters.
pub open spec fn spaces(n: nat) -> Seq<char>
    decreases n,
{
    if n == 0 {
        Seq::empty()
    } else {
        spaces((n - 1) as nat) + seq![' ']
    }
}

/// One left-justified cell: the text, then spaces up to `width`. Text
/// wider than the column is kept whole.
pub open spec fn pad_cell(text: Seq<char>, width: nat) -> Seq<char> {
    if text.len() >= width {
        text
    } else {
        text + spaces((width - text.len()) as nat)
    }
}

/// An absent optional value is displayed as zero.
pub open spec fn opt_or_zero(v: Option<u32>) -> u32 {
    match v {
        Some(x) => x,
        None => 0,
    }
}

/// The header line: the nine column titles, each one cell wide.
pub open spec fn table_header(width: nat) -> Seq<char> {
    pad_cell("Cpu"@, width) + (pad_cell("Processed"@, width) + (pad_cell("Dropped"@, width) + (
    pad_cell("Time Squeezed"@, width) + (pad_cell("Cpu Collision"@, width) + (pad_cell(
        "Received RPS"@,
        width,
    ) + (pad_cell("Flow Limit Cnt"@, width) + (pad_cell("Backlog Length"@, width) + (pad_cell(
        "CPU Id"@,
        width,
    ) + seq!['\n']))))))))
}

/// One row: the record's position in the sequence, then its eight
/// displayed counters, absent optional values as zero.
pub open spec fn table_row(stat: SoftnetStat, idx: nat, width: nat) -> Seq<char> {
    pad_cell(dec_str(idx), width) + (pad_cell(dec_str(stat.processed as nat), width) + (pad_cell(
        dec_str(stat.dropped as nat),
        width,
    ) + (pad_cell(dec_str(stat.time_squeeze as nat), width) + (pad_cell(
        dec_str(stat.cpu_collision as nat),
        width,
    ) + (pad_cell(dec_str(opt_or_zero(stat.received_rps) as nat), width) + (pad_cell(
        dec_str(opt_or_zero(stat.flow_limit_count) as nat),
        width,
    ) + (pad_cell(dec_str(opt_or_zero(stat.backlog_len) as nat), width) + (pad_cell(
        dec_str(opt_or_zero(stat.cpu_id) as nat),
        width,
    ) + seq!['\n']))))))))
}

/// The rows for the records from position `k` on.
pub open spec fn table_rows_from(stats: Seq<SoftnetStat>, k: int, width: nat) -> Seq<char>
    decreases stats.len() - k,
{
    if k < 0 || k >= stats.len() {
        Seq::empty()
    } else {
        table_row(stats[k], k as nat, width) + table_rows_from(stats, k + 1, width)
    }
}

/// The whole table: the header line, then one row per record in order.
pub open spec fn table_text(stats: Seq<SoftnetStat>, width: nat) -> Seq<char> {
    table_header(width) + table_rows_from(stats, 0, width)
}

/// Concatenation of sequences is associative.
pub proof fn lemma_concat_assoc(a: Seq<char>, b: Seq<char>, c: Seq<char>)
    ensures
        (a + b) + c == a + (b + c),
{
    assert((a + b) + c =~= a + (b + c));
}

/// Append one cell: `text` left-justified to `width`.
fn push_cell(out: &mut String, text: &str, width: usize)
    ensures
        final(out)@ == old(out)@ + pad_cell(text@, width as nat),
{
    let ghost start = out@;
    out.append(text);
    let mut k = text.unicode_len();
    if k >= width {
        proof {
            assert(out@ =~= start + pad_cell(text@, width as nat));
        }
        return ;
    }
    proof {
        assert(out@ =~= start + (text@ + spaces(0)));
    }
    while k < width
        invariant
            text@.len() <= k <= width,
            out@ == start + (text@ + spaces((k - text@.len()) as nat)),
        decreases width - k,
    {
        out.append(" ");
        k = k + 1;
        proof {
            reveal_strlit(" ");
            assert(spaces((k - text@.len()) as nat) == spaces((k - 1 - text@.len()) as nat)
                + seq![' ']);
            assert(" "@ =~= seq![' ']);
            assert(out@ =~= start + (text@ + spaces((k - text@.len()) as nat)));
        }
    }
    proof {
        assert(out@ =~= start + pad_cell(text@, width as nat));
    }
}

/// Append one numeric cell.
fn push_num_cell(out: &mut String, value: u64, width: usize)
    ensures
        final(out)@ == old(out)@ + pad_cell(dec_str(value as nat), width as nat),
{
    let text = crate::digits::u64_dec_string(value);
    push_cell(out, text.as_str(), width);
}

/// Render the records as the fixed-width table: the header line, then one
/// row per record in sequence order, each column `width` characters wide,
/// absent optional values displayed as `0`.
pub fn render_table(stats: &[SoftnetStat], width: usize) -> (out: String)
    ensures
        out@ == table_text(stats@, width as nat),
{
    let ghost w = width as nat;
    let mut out = String::new();
    let ghost t9: Seq<char> = seq!['\n'];
    let ghost t8 = pad_cell("CPU Id"@, w) + t9;
    let ghost t7 = pad_cell("Backlog Length"@, w) + t8;
    let ghost t6 = pad_cell("Flow Limit Cnt"@, w) + t7;
    let ghost t5 = pad_cell("Received RPS"@, w) + t6;
    let ghost t4 = pad_cell("Cpu Collision"@, w) + t5;
    let ghost t3 = pad_cell("Time Squeezed"@, w) + t4;
    let ghost t2 = pad_cell("Dropped"@, w) + t3;
    let ghost t1 = pad_cell("Processed"@, w) + t2;
    let ghost t0 = pad_cell("Cpu"@, w) + t1;
    proof {
        assert(t0 == table_header(w));
        assert(Seq::<char>::empty() + t0 =~= t0);
    }
    push_cell(&mut out, "Cpu", width);
    proof {
        lemma_concat_assoc(Seq::<char>::empty(), pad_cell("Cpu"@, w), t1);
    }
    push_cell(&mut out, "Processed", width);
    proof {
        lemma_concat_assoc(Seq::<char>::empty() + pad_cell("Cpu"@, w), pad_cell("Processed"@, w), t2);
    }
    let ghost h2 = out@;
    push_cell(&mut out, "Dropped", width);
    proof {
        lemma_concat_assoc(h2, pad_cell("Dropped"@, w), t3);
    }
    let ghost h3 = out@;
    push_cell(&mut out, "Time Squeezed", width);
    proof {
        lemma_concat_assoc(h3, pad_cell("Time Squeezed"@, w), t4);
    }
    let ghost h4 = out@;
    push_cell(&mut out, "Cpu Collision", width);
    proof {
        lemma_concat_assoc(h4, pad_cell("Cpu Collision"@, w), t5);
    }
    let ghost h5 = out@;
    push_cell(&mut out, "Received RPS", width);
    proof {
        lemma_concat_assoc(h5, pad_cell("Received RPS"@, w), t6);
    }
    let ghost h6 = out@;
    push_cell(&mut out, "Flow Limit Cnt", width);
    proof {
        lemma_concat_assoc(h6, pad_cell("Flow Limit Cnt"@, w), t7);
    }
    let ghost h7 = out@;
    push_cell(&mut out, "Backlog Length", width);
    proof {
        lemma_concat_assoc(h7, pad_cell("Backlog Length"@, w), t8);
    }
    let ghost h8 = out@;
    push_cell(&mut out, "CPU Id", width);
    proof {
        lemma_concat_assoc(h8, pad_cell("CPU Id"@, w), t9);
    }
    out.append("\n");
    proof {
        reveal_strlit("\n");
        assert("\n"@ =~= seq!['\n']);
        assert(out@ =~= table_header(w));
    }
    let mut i: usize = 0;
    while i < stats.len()
        invariant
            0 <= i <= stats@.len(),
            w == width as nat,
            out@ + table_rows_from(stats@, i as int, w) == table_text(stats@, w),
        decreases stats@.len() - i,
    {
        let ghost before = out@;
        let stat = stats[i];
        let ghost r9: Seq<char> = seq!['\n'];
        let ghost r8 = pad_cell(dec_str(opt_or_zero(stat.cpu_id) as nat), w) + r9;
        let ghost r7 = pad_cell(dec_str(opt_or_zero(stat.backlog_len) as nat), w) + r8;
        let ghost r6 = pad_cell(dec_str(opt_or_zero(stat.flow_limit_count) as nat), w) + r7;
        let ghost r5 = pad_cell(dec_str(opt_or_zero(stat.received_rps) as nat), w) + r6;
        let ghost r4 = pad_cell(dec_str(stat.cpu_collision as nat), w) + r5;
        let ghost r3 = pad_cell(dec_str(stat.time_squeeze as nat), w) + r4;
        let ghost r2 = pad_cell(dec_str(stat.dropped as nat), w) + r3;
        let ghost r1 = pad_cell(dec_str(stat.processed as nat), w) + r2;
        let ghost r0 = pad_cell(dec_str(i as nat), w) + r1;
        proof {
            assert(r0 == table_row(stats@[i as int], i as nat, w));
        }
        push_num_cell(&mut out, i as u64, width);
        proof {
            assert((i as u64) as nat == i as nat);
            assert(out@ == before + pad_cell(dec_str(i as nat), w));
            lemma_concat_assoc(before, pad_cell(dec_str(i as nat), w), r1);
            assert(out@ + r1 == before + r0);
        }
        let ghost g1 = out@;
        push_num_cell(&mut out, stat.processed as u64, width);
        proof {
            lemma_concat_assoc(g1, pad_cell(dec_str(stat.processed as nat), w), r2);
        }
        let ghost g2 = out@;
        push_num_cell(&mut out, stat.dropped as u64, width);
        proof {
            lemma_concat_assoc(g2, pad_cell(dec_str(stat.dropped as nat), w), r3);
        }
        let ghost g3 = out@;
        push_num_cell(&mut out, stat.time_squeeze as u64, width);
        proof {
            lemma_concat_assoc(g3, pad_cell(dec_str(stat.time_squeeze as nat), w), r4);
        }
        let ghost g4 = out@;
        push_num_cell(&mut out, stat.cpu_collision as u64, width);
        proof {
            lemma_concat_assoc(g4, pad_cell(dec_str(stat.cpu_collision as nat), w), r5);
        }
        let ghost g5 = out@;
        push_num_cell(&mut out, opt_u32_or_zero(stat.received_rps) as u64, width);
        proof {
            lemma_concat_assoc(g5, pad_cell(dec_str(opt_or_zero(stat.received_rps) as nat), w), r6);
        }
        let ghost g6 = out@;
        push_num_cell(&mut out, opt_u32_or_zero(stat.flow_limit_count) as u64, width);
        proof {
            lemma_concat_assoc(
                g6,
                pad_cell(dec_str(opt_or_zero(stat.flow_limit_count) as nat), w),
                r7,
            );
        }
        let ghost g7 = out@;
        push_num_cell(&mut out, opt_u32_or_zero(stat.backlog_len) as u64, width);
        proof {
            lemma_concat_assoc(g7, pad_cell(dec_str(opt_or_zero(stat.backlog_len) as nat), w), r8);
        }
        let ghost g8 = out@;
        push_num_cell(&mut out, opt_u32_or_zero(stat.cpu_id) as u64, width);
        proof {
            assert(out@ == g8 + pad_cell(dec_str(opt_or_zero(stat.cpu_id) as nat), w));
            lemma_concat_assoc(g8, pad_cell(dec_str(opt_or_zero(stat.cpu_id) as nat), w), r9);
            assert(out@ + r9 == before + r0);
        }
        out.append("\n");
        proof {
            reveal_strlit("\n");
            assert("\n"@ =~= seq!['\n']);
            assert(out@ == before + r0);
            assert(table_rows_from(stats@, i as int, w) == table_row(stats@[i as int], i as nat, w)
                + table_rows_from(stats@, i as int + 1, w));
            lemma_concat_assoc(before, r0, table_rows_from(stats@, i as int + 1, w));
        }
        i = i + 1;
    }
    proof {
        assert(out@ + table_rows_from(stats@, stats@.len() as int, w) =~= out@);
    }
    out
}

/// An absent optional value, as the renderers display it: zero.
pub fn opt_u32_or_zero(v: Option<u32>) -> (r: u32)
    ensures
        r == opt_or_zero(v),
{
    match v {
        Some(x) => x,
        None => 0,
    }
}

} // verus!
