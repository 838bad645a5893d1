//! What the printed reports say, and where each number stands in them.

use vstd::prelude::*;

use crate::declined::DeclinedOp;
use crate::report::{
    claim_line, compute_line, declined_line, declined_part, memory_lines, phase_text, slow_line,
    slow_lines, slowest_order, slowest_words, summary_words, timing_part, SummaryFigures,
};
use crate::summary::Summary;
use crate::tables::{TimeEntry, TimeTable};
use crate::text::decimal;

verus! {

/// The digest: claims, declined operators, paths and caches, memory, and time, between two rules.
pub proof fn law_digest_order(summary: Summary, figures: SummaryFigures)
    ensures
        summary_words(summary, figures) == "===== MLX EP session summary =====\n"@ + claim_line(
            summary,
            figures,
        ) + declined_part(summary.declined.entries@) + compute_line(summary) + memory_lines(
            summary,
            figures,
        ) + timing_part(summary.phases.entries@) + "==================================="@,
        summary.declined.entries@.len() == 0 ==> declined_part(summary.declined.entries@).len()
            == 0,
        summary.phases.entries@.len() == 0 ==> timing_part(summary.phases.entries@).len() == 0,
{
}

/// The line on claims tells the claimed nodes of all nodes, their share, the groups and the
/// questions.
pub proof fn law_claims_told(summary: Summary, figures: SummaryFigures)
    ensures
        claim_line(summary, figures) == "  claim:   "@ + decimal(summary.claimed_nodes as nat)
            + "/"@ + decimal(summary.total_nodes as nat) + " nodes claimed ("@ + figures.claim_pct@
            + "%) across "@ + decimal(summary.fused_subgraphs as nat) + " fused subgraph(s), "@
            + decimal(summary.getcap_calls as nat) + " GetCapability call(s)\n"@,
{
}

/// The line on computations tells how often each path ran and how the caches fared.
pub proof fn law_paths_told(summary: Summary)
    ensures
        compute_line(summary) == "  compute: decode="@ + decimal(summary.decode_runs as nat)
            + " prefill="@ + decimal(summary.prefill_runs as nat) + " general="@ + decimal(
            summary.general_runs as nat,
        ) + " eager="@ + decimal(summary.eager_runs as nat) + "  (cache: "@ + decimal(
            summary.cache_hit as nat,
        ) + " HIT / "@ + decimal(summary.cache_miss as nat) + " MISS / "@ + decimal(
            summary.cache_retrace as nat,
        ) + " RETRACE)\n"@,
{
}

/// The lines on memory tell what was wrapped, what was copied in, and what was copied out.
pub proof fn law_memory_told(summary: Summary, figures: SummaryFigures)
    ensures
        memory_lines(summary, figures) == "  memory:  managed-wrap "@ + decimal(
            summary.managed_wrap_count as nat,
        ) + " ("@ + decimal(summary.managed_wrap_aligned as nat) + " zero-copy aligned), "@
            + figures.managed_mib@ + " MiB borrowed; copy-wrap "@ + decimal(
            summary.copy_wrap_count as nat,
        ) + ", "@ + figures.copy_mib@ + " MiB\n"@ + "           copy-out: delta "@ + decimal(
            summary.delta_copyout_count as nat,
        ) + " ("@ + figures.delta_mib@ + " MiB) vs full "@ + decimal(
            summary.full_copyout_count as nat,
        ) + " ("@ + figures.full_mib@ + " MiB)\n"@,
{
}

/// A declined operator is told with its number and its reason, or with a stock reason where it has
/// none; a phase with its time and its calls.
pub proof fn law_entries_told(declined: DeclinedOp, phase: TimeEntry)
    ensures
        declined.reason@.len() > 0 ==> declined_line(declined) == "             - "@ + declined.op@
            + " x"@ + decimal(declined.count as nat) + ": "@ + declined.reason@ + "\n"@,
        declined.reason@.len() == 0 ==> declined_line(declined) == "             - "@
            + declined.op@ + " x"@ + decimal(declined.count as nat) + ": "@
            + "no MLX handler / opset"@ + "\n"@,
        phase_text(phase) == phase.name@ + "="@ + decimal(phase.micros as nat) + "us (x"@ + decimal(
            phase.calls as nat,
        ) + ")"@,
{
}

/// The report on the slowest operators tells the time of all nodes and how many operators are
/// listed, and then each of them at its place, with its own time, share and calls.
pub proof fn law_slowest_told(table: TimeTable, shares: Seq<Seq<char>>, k: int)
    ensures
        ({
            let order = slowest_order(table.entries@);
            &&& slowest_words(table, shares) == "slowest ops ("@
                + "build-time (fusion intact; per-kernel GPU detail: ONNXRUNTIME_EP_MLX_GPU_CAPTURE)"@
                + "), total "@ + decimal(table.total as nat) + " us across "@ + decimal(order.len())
                + " op-type(s):\n"@ + slow_lines(
                table.entries@,
                order,
                shares,
                order.len() as int,
            )
            &&& slow_lines(table.entries@, order, shares, 0).len() == 0
            &&& 0 <= k < order.len() ==> slow_lines(table.entries@, order, shares, k + 1)
                == slow_lines(table.entries@, order, shares, k) + slow_line(
                table.entries@[order[k]],
                (k + 1) as nat,
                shares[k],
            )
        }),
{
}

} // verus!
