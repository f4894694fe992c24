//! The Prometheus exposition renderer.

use vstd::prelude::*;
use crate::digits::dec_str;
use crate::softnet::SoftnetStat;
use crate::table::{lemma_concat_assoc, opt_or_zero, opt_u32_or_zero};

verus! {

/// The CPU a record is labeled with: its own `cpu_id` field where the
/// kernel reported one, else the record's position in the sequence.
/// Offline CPUs are not dumped, so the position alone can misname the
/// CPU on kernels that report `cpu_id`.
pub open spec fn cpu_label_val(stat: SoftnetStat, idx: int) -> nat {
    match stat.cpu_id {
        Some(c) => c as nat,
        None => (idx as u32) as nat,
    }
}

/// One exposition line: the metric name, the `cpu` label, the value.
pub open spec fn prom_line(name: Seq<char>, cpu: nat, value: nat) -> Seq<char> {
    name + ("{cpu=\"cpu"@ + (dec_str(cpu) + ("\"} "@ + (dec_str(value) + seq!['\n']))))
}

/// The seven exposition lines of one record: the four counters that every
/// kernel reports, then the three optional counters with absent values as
/// zero. The `cpu_id` field itself gets no line: it only names the CPU.
pub open spec fn prom_record(stat: SoftnetStat, idx: int) -> Seq<char> {
    let cpu = cpu_label_val(stat, idx);
    prom_line("softnet_frames_processed"@, cpu, stat.processed as nat) + (prom_line(
        "softnet_frames_dropped"@,
        cpu,
        stat.dropped as nat,
    ) + (prom_line("softnet_time_squeeze"@, cpu, stat.time_squeeze as nat) + (prom_line(
        "softnet_cpu_collisions"@,
        cpu,
        stat.cpu_collision as nat,
    ) + (prom_line("softnet_received_rps"@, cpu, opt_or_zero(stat.received_rps) as nat) + (
    prom_line("softnet_flow_limit_count"@, cpu, opt_or_zero(stat.flow_limit_count) as nat)
        + prom_line("softnet_backlog_len"@, cpu, opt_or_zero(stat.backlog_len) as nat))))))
}

/// The exposition lines for the records from position `k` on.
pub open spec fn prom_from(stats: Seq<SoftnetStat>, k: int) -> Seq<char>
    decreases stats.len() - k,
{
    if k < 0 || k >= stats.len() {
        Seq::empty()
    } else {
        prom_record(stats[k], k) + prom_from(stats, k + 1)
    }
}

/// The whole exposition text: the records' lines in sequence order.
pub open spec fn prometheus_text(stats: Seq<SoftnetStat>) -> Seq<char> {
    prom_from(stats, 0)
}

/// The CPU a record is labeled with.
fn cpu_label(stat: &SoftnetStat, idx: usize) -> (r: u32)
    ensures
        r as nat == cpu_label_val(*stat, idx as int),
{
    match stat.cpu_id {
        Some(c) => c,
        None => #[verifier::truncate] (idx as u32),
    }
}

/// Append one exposition line.
fn push_prom_line(out: &mut String, name: &str, cpu: u32, value: u32)
    ensures
        final(out)@ == old(out)@ + prom_line(name@, cpu as nat, value as nat),
{
    let ghost p0 = out@;
    let ghost s5: Seq<char> = seq!['\n'];
    let ghost s4 = dec_str(value as nat) + s5;
    let ghost s3 = "\"} "@ + s4;
    let ghost s2 = dec_str(cpu as nat) + s3;
    let ghost s1 = "{cpu=\"cpu"@ + s2;
    out.append(name);
    proof {
        lemma_concat_assoc(p0, name@, s1);
    }
    let ghost g1 = out@;
    out.append("{cpu=\"cpu");
    proof {
        lemma_concat_assoc(g1, "{cpu=\"cpu"@, s2);
    }
    let ghost g2 = out@;
    let c = crate::digits::u64_dec_string(cpu as u64);
    out.append(c.as_str());
    proof {
        lemma_concat_assoc(g2, dec_str(cpu as nat), s3);
    }
    let ghost g3 = out@;
    out.append("\"} ");
    proof {
        lemma_concat_assoc(g3, "\"} "@, s4);
    }
    let ghost g4 = out@;
    let v = crate::digits::u64_dec_string(value as u64);
    out.append(v.as_str());
    proof {
        lemma_concat_assoc(g4, dec_str(value as nat), s5);
    }
    out.append("\n");
    proof {
        reveal_strlit("\n");
        assert("\n"@ =~= seq!['\n']);
        assert(out@ == p0 + prom_line(name@, cpu as nat, value as nat));
    }
}

/// Render the records as Prometheus exposition text: for each record in
/// sequence order, one line per displayed counter, each labeled with the
/// record's CPU, absent optional values rendered as `0`.
pub fn render_prometheus(stats: &[SoftnetStat]) -> (out: String)
    ensures
        out@ == prometheus_text(stats@),
{
    let mut out = String::new();
    proof {
        assert(Seq::<char>::empty() + prom_from(stats@, 0) =~= prom_from(stats@, 0));
    }
    let mut i: usize = 0;
    while i < stats.len()
        invariant
            0 <= i <= stats@.len(),
            out@ + prom_from(stats@, i as int) == prometheus_text(stats@),
        decreases stats@.len() - i,
    {
        let ghost before = out@;
        let stat = stats[i];
        let cpu = cpu_label(&stat, i);
        let ghost c = cpu_label_val(stat, i as int);
        let ghost u7 = prom_line("softnet_backlog_len"@, c, opt_or_zero(stat.backlog_len) as nat);
        let ghost u6 = prom_line(
            "softnet_flow_limit_count"@,
            c,
            opt_or_zero(stat.flow_limit_count) as nat,
        ) + u7;
        let ghost u5 = prom_line("softnet_received_rps"@, c, opt_or_zero(stat.received_rps) as nat)
            + u6;
        let ghost u4 = prom_line("softnet_cpu_collisions"@, c, stat.cpu_collision as nat) + u5;
        let ghost u3 = prom_line("softnet_time_squeeze"@, c, stat.time_squeeze as nat) + u4;
        let ghost u2 = prom_line("softnet_frames_dropped"@, c, stat.dropped as nat) + u3;
        let ghost u1 = prom_line("softnet_frames_processed"@, c, stat.processed as nat) + u2;
        proof {
            assert(u1 == prom_record(stats@[i as int], i as int));
        }
        push_prom_line(&mut out, "softnet_frames_processed", cpu, stat.processed);
        proof {
            lemma_concat_assoc(
                before,
                prom_line("softnet_frames_processed"@, c, stat.processed as nat),
                u2,
            );
        }
        let ghost g1 = out@;
        push_prom_line(&mut out, "softnet_frames_dropped", cpu, stat.dropped);
        proof {
            lemma_concat_assoc(g1, prom_line("softnet_frames_dropped"@, c, stat.dropped as nat), u3);
        }
        let ghost g2 = out@;
        push_prom_line(&mut out, "softnet_time_squeeze", cpu, stat.time_squeeze);
        proof {
            lemma_concat_assoc(g2, prom_line("softnet_time_squeeze"@, c, stat.time_squeeze as nat), u4);
        }
        let ghost g3 = out@;
        push_prom_line(&mut out, "softnet_cpu_collisions", cpu, stat.cpu_collision);
        proof {
            lemma_concat_assoc(
                g3,
                prom_line("softnet_cpu_collisions"@, c, stat.cpu_collision as nat),
                u5,
            );
        }
        let ghost g4 = out@;
        push_prom_line(&mut out, "softnet_received_rps", cpu, opt_u32_or_zero(stat.received_rps));
        proof {
            lemma_concat_assoc(
                g4,
                prom_line("softnet_received_rps"@, c, opt_or_zero(stat.received_rps) as nat),
                u6,
            );
        }
        let ghost g5 = out@;
        push_prom_line(
            &mut out,
            "softnet_flow_limit_count",
            cpu,
            opt_u32_or_zero(stat.flow_limit_count),
        );
        proof {
            lemma_concat_assoc(
                g5,
                prom_line("softnet_flow_limit_count"@, c, opt_or_zero(stat.flow_limit_count) as nat),
                u7,
            );
        }
        push_prom_line(&mut out, "softnet_backlog_len", cpu, opt_u32_or_zero(stat.backlog_len));
        proof {
            assert(out@ == before + prom_record(stats@[i as int], i as int));
            assert(prom_from(stats@, i as int) == prom_record(stats@[i as int], i as int)
                + prom_from(stats@, i as int + 1));
            lemma_concat_assoc(
                before,
                prom_record(stats@[i as int], i as int),
                prom_from(stats@, i as int + 1),
            );
        }
        i = i + 1;
    }
    proof {
        assert(out@ + prom_from(stats@, stats@.len() as int) =~= out@);
    }
    out
}

} // verus!
