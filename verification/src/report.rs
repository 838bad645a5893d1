//! The texts of the session digest and of the slowest operators.
//!
//! Shares and sizes with decimals come in as texts; everything else is written here.

use vstd::prelude::*;
use vstd::string::StringExecFns;

use onnx_runtime_tracer::Args;

use crate::declined::{declined_names, declined_weights, DeclinedOp};
use crate::digraph::ints;
use crate::ranking::ranked;
use crate::rejection::texts;
use crate::summary::Summary;
use crate::tables::{no_weights, time_names, time_weights, TimeEntry, TimeTable};
use crate::text::{decimal, decimal_text, join2, join3};
use crate::trace_args::{
    args_state, join_all, joined, new_args, no_args, with_number, with_text, ArgValue,
};

verus! {

/// No more declined operators than this are listed.
pub const DECLINED_LISTED: usize = 8;

/// No more slow operators than this are listed.
pub const SLOWEST_LISTED: usize = 10;

/// The numbers of a digest that have decimals.
pub struct SummaryFigures {
    pub claim_pct: String,
    pub managed_mib: String,
    pub copy_mib: String,
    pub delta_mib: String,
    pub full_mib: String,
}

/// One declined operator.
pub open spec fn declined_line(entry: DeclinedOp) -> Seq<char> {
    "             - "@ + entry.op@ + " x"@ + decimal(entry.count as nat) + ": "@ + (
    if entry.reason@.len() == 0 {
        "no MLX handler / opset"@
    } else {
        entry.reason@
    }) + "\n"@
}

/// The first `k` declined operators in rank order.
pub open spec fn declined_lines(entries: Seq<DeclinedOp>, order: Seq<int>, k: int) -> Seq<char>
    decreases k,
{
    if k <= 0 {
        Seq::empty()
    } else {
        declined_lines(entries, order, k - 1) + declined_line(entries[order[k - 1]])
    }
}

/// At most `most`.
pub open spec fn at_most(count: nat, most: usize) -> int {
    if count < most {
        count as int
    } else {
        most as int
    }
}

/// The declined operators, the most frequent first.
pub open spec fn declined_part(entries: Seq<DeclinedOp>) -> Seq<char> {
    if entries.len() == 0 {
        Seq::empty()
    } else {
        "           unclaimed (→ CPU):\n"@ + declined_lines(
            entries,
            ranked(declined_names(entries), declined_weights(entries)),
            at_most(entries.len(), DECLINED_LISTED),
        )
    }
}

fn write_declined(summary: &Summary) -> (text: String)
    requires
        summary.wf(),
    ensures
        text@ == declined_part(summary.declined.entries@),
{
    let ghost entries = summary.declined.entries@;
    if summary.declined.entries.len() == 0 {
        return String::new();
    }
    let order: Vec<usize> = summary.declined.by_count();
    let mut most: usize = order.len();
    if most > DECLINED_LISTED {
        most = DECLINED_LISTED;
    }
    let mut lines: String = String::new();
    let mut at: usize = 0;
    while at < most
        invariant
            at <= most <= order@.len(),
            order@.len() == entries.len(),
            entries == summary.declined.entries@,
            forall|x: int| 0 <= x < order@.len() ==> #[trigger] order@[x] < entries.len(),
            lines@ == declined_lines(entries, ints(order@), at as int),
        decreases most - at,
    {
        assert(order@[at as int] < entries.len());
        let entry: &DeclinedOp = &summary.declined.entries[order[at]];
        let mut line: String = join3("             - ", entry.op.as_str(), " x");
        line.append(decimal_text(entry.count).as_str());
        line.append(": ");
        if entry.reason.as_str().is_empty() {
            line.append("no MLX handler / opset");
        } else {
            line.append(entry.reason.as_str());
        }
        line.append("\n");
        lines.append(line.as_str());
        proof {
            assert(ints(order@)[at as int] == order@[at as int]);
            assert(line@ == declined_line(entries[order@[at as int] as int]));
        }
        at = at + 1;
    }
    join2("           unclaimed (→ CPU):\n", lines.as_str())
}

/// The line on claims.
pub open spec fn claim_line(summary: Summary, figures: SummaryFigures) -> Seq<char> {
    "  claim:   "@ + decimal(summary.claimed_nodes as nat) + "/"@ + decimal(
        summary.total_nodes as nat,
    ) + " nodes claimed ("@ + figures.claim_pct@ + "%) across "@ + decimal(
        summary.fused_subgraphs as nat,
    ) + " fused subgraph(s), "@ + decimal(summary.getcap_calls as nat)
        + " GetCapability call(s)\n"@
}

fn write_claims(summary: &Summary, figures: &SummaryFigures) -> (text: String)
    ensures
        text@ == claim_line(*summary, *figures),
{
    let mut text: String = join3(
        "  claim:   ",
        decimal_text(summary.claimed_nodes).as_str(),
        "/",
    );
    text.append(decimal_text(summary.total_nodes).as_str());
    text.append(" nodes claimed (");
    text.append(figures.claim_pct.as_str());
    text.append("%) across ");
    text.append(decimal_text(summary.fused_subgraphs).as_str());
    text.append(" fused subgraph(s), ");
    text.append(decimal_text(summary.getcap_calls).as_str());
    text.append(" GetCapability call(s)\n");
    text
}

/// The line on paths and caches.
pub open spec fn compute_line(summary: Summary) -> Seq<char> {
    "  compute: decode="@ + decimal(summary.decode_runs as nat) + " prefill="@ + decimal(
        summary.prefill_runs as nat,
    ) + " general="@ + decimal(summary.general_runs as nat) + " eager="@ + decimal(
        summary.eager_runs as nat,
    ) + "  (cache: "@ + decimal(summary.cache_hit as nat) + " HIT / "@ + decimal(
        summary.cache_miss as nat,
    ) + " MISS / "@ + decimal(summary.cache_retrace as nat) + " RETRACE)\n"@
}

fn write_compute(summary: &Summary) -> (text: String)
    ensures
        text@ == compute_line(*summary),
{
    let mut text: String = join3(
        "  compute: decode=",
        decimal_text(summary.decode_runs).as_str(),
        " prefill=",
    );
    text.append(decimal_text(summary.prefill_runs).as_str());
    text.append(" general=");
    text.append(decimal_text(summary.general_runs).as_str());
    text.append(" eager=");
    text.append(decimal_text(summary.eager_runs).as_str());
    text.append("  (cache: ");
    text.append(decimal_text(summary.cache_hit).as_str());
    text.append(" HIT / ");
    text.append(decimal_text(summary.cache_miss).as_str());
    text.append(" MISS / ");
    text.append(decimal_text(summary.cache_retrace).as_str());
    text.append(" RETRACE)\n");
    text
}

/// The lines on memory.
pub open spec fn memory_lines(summary: Summary, figures: SummaryFigures) -> Seq<char> {
    "  memory:  managed-wrap "@ + decimal(summary.managed_wrap_count as nat) + " ("@ + decimal(
        summary.managed_wrap_aligned as nat,
    ) + " zero-copy aligned), "@ + figures.managed_mib@ + " MiB borrowed; copy-wrap "@ + decimal(
        summary.copy_wrap_count as nat,
    ) + ", "@ + figures.copy_mib@ + " MiB\n"@ + "           copy-out: delta "@ + decimal(
        summary.delta_copyout_count as nat,
    ) + " ("@ + figures.delta_mib@ + " MiB) vs full "@ + decimal(
        summary.full_copyout_count as nat,
    ) + " ("@ + figures.full_mib@ + " MiB)\n"@
}

fn write_memory(summary: &Summary, figures: &SummaryFigures) -> (text: String)
    ensures
        text@ == memory_lines(*summary, *figures),
{
    let mut text: String = join3(
        "  memory:  managed-wrap ",
        decimal_text(summary.managed_wrap_count).as_str(),
        " (",
    );
    text.append(decimal_text(summary.managed_wrap_aligned).as_str());
    text.append(" zero-copy aligned), ");
    text.append(figures.managed_mib.as_str());
    text.append(" MiB borrowed; copy-wrap ");
    text.append(decimal_text(summary.copy_wrap_count).as_str());
    text.append(", ");
    text.append(figures.copy_mib.as_str());
    text.append(" MiB\n");
    text.append("           copy-out: delta ");
    text.append(decimal_text(summary.delta_copyout_count).as_str());
    text.append(" (");
    text.append(figures.delta_mib.as_str());
    text.append(" MiB) vs full ");
    text.append(decimal_text(summary.full_copyout_count).as_str());
    text.append(" (");
    text.append(figures.full_mib.as_str());
    text.append(" MiB)\n");
    text
}

/// The time of one phase.
pub open spec fn phase_text(entry: TimeEntry) -> Seq<char> {
    entry.name@ + "="@ + decimal(entry.micros as nat) + "us (x"@ + decimal(entry.calls as nat)
        + ")"@
}

/// The phases by name.
pub open spec fn phase_texts(entries: Seq<TimeEntry>) -> Seq<Seq<char>> {
    Seq::new(
        entries.len(),
        |i: int|
            phase_text(entries[ranked(time_names(entries), no_weights(entries.len()))[i]]),
    )
}

/// The line on time.
pub open spec fn timing_part(entries: Seq<TimeEntry>) -> Seq<char> {
    if entries.len() == 0 {
        Seq::empty()
    } else {
        "  timing:  "@ + joined(phase_texts(entries), ", "@) + "\n"@
    }
}

fn write_timing(summary: &Summary) -> (text: String)
    requires
        summary.wf(),
    ensures
        text@ == timing_part(summary.phases.entries@),
{
    let ghost entries = summary.phases.entries@;
    if summary.phases.entries.len() == 0 {
        return String::new();
    }
    let order: Vec<usize> = summary.phases.by_name();
    let mut parts: Vec<String> = Vec::new();
    while parts.len() < order.len()
        invariant
            parts@.len() <= order@.len(),
            order@.len() == entries.len(),
            entries == summary.phases.entries@,
            ints(order@) == ranked(time_names(entries), no_weights(entries.len())),
            forall|x: int| 0 <= x < order@.len() ==> #[trigger] order@[x] < entries.len(),
            forall|i: int|
                0 <= i < parts@.len() ==> (#[trigger] parts@[i])@ == phase_texts(entries)[i],
        decreases order@.len() - parts@.len(),
    {
        let at: usize = parts.len();
        assert(order@[at as int] < entries.len());
        assert(ints(order@)[at as int] == order@[at as int]);
        let entry: &TimeEntry = &summary.phases.entries[order[at]];
        let mut text: String = join3(
            entry.name.as_str(),
            "=",
            decimal_text(entry.micros).as_str(),
        );
        text.append("us (x");
        text.append(decimal_text(entry.calls).as_str());
        text.append(")");
        parts.push(text);
    }
    proof {
        assert(texts(parts@) =~= phase_texts(entries));
    }
    join3("  timing:  ", join_all(&parts, ", ").as_str(), "\n")
}

/// The digest of a session.
pub open spec fn summary_words(summary: Summary, figures: SummaryFigures) -> Seq<char> {
    "===== MLX EP session summary =====\n"@ + claim_line(summary, figures) + declined_part(
        summary.declined.entries@,
    ) + compute_line(summary) + memory_lines(summary, figures) + timing_part(
        summary.phases.entries@,
    ) + "==================================="@
}

/// Writes the digest of a session; there is none if nothing was claimed or computed.
pub fn summary_text(summary: &Summary, figures: &SummaryFigures) -> (text: Option<String>)
    requires
        summary.wf(),
    ensures
        if summary.blank() {
            text is None
        } else {
            text matches Some(text) && text@ == summary_words(*summary, *figures)
        },
{
    if summary.is_blank() {
        return None;
    }
    let mut text: String = join2(
        "===== MLX EP session summary =====\n",
        write_claims(summary, figures).as_str(),
    );
    text.append(write_declined(summary).as_str());
    text.append(write_compute(summary).as_str());
    text.append(write_memory(summary, figures).as_str());
    text.append(write_timing(summary).as_str());
    text.append("===================================");
    Some(text)
}

/// The arguments of the event that carries the digest.
pub open spec fn summary_arg_map(
    summary: Summary,
    figures: SummaryFigures,
) -> Map<Seq<char>, ArgValue> {
    no_args().insert("claimed_nodes"@, ArgValue::Number(summary.claimed_nodes)).insert(
        "total_nodes"@,
        ArgValue::Number(summary.total_nodes),
    ).insert("claim_pct"@, ArgValue::Text(figures.claim_pct@)).insert(
        "fused_subgraphs"@,
        ArgValue::Number(summary.fused_subgraphs),
    ).insert("path_decode"@, ArgValue::Number(summary.decode_runs)).insert(
        "path_prefill"@,
        ArgValue::Number(summary.prefill_runs),
    ).insert("path_general"@, ArgValue::Number(summary.general_runs)).insert(
        "path_eager"@,
        ArgValue::Number(summary.eager_runs),
    ).insert("cache_hit"@, ArgValue::Number(summary.cache_hit)).insert(
        "cache_miss"@,
        ArgValue::Number(summary.cache_miss),
    ).insert("cache_retrace"@, ArgValue::Number(summary.cache_retrace)).insert(
        "managed_wrap_bytes"@,
        ArgValue::Number(summary.managed_wrap_bytes),
    ).insert("managed_wrap_aligned"@, ArgValue::Number(summary.managed_wrap_aligned)).insert(
        "delta_copyout_bytes"@,
        ArgValue::Number(summary.delta_copyout_bytes),
    ).insert("full_copyout_bytes"@, ArgValue::Number(summary.full_copyout_bytes))
}

/// The arguments of the event that carries the digest.
pub fn summary_args(summary: &Summary, figures: &SummaryFigures) -> (args: Args)
    ensures
        args_state(args) == summary_arg_map(*summary, *figures),
{
    let args: Args = with_number(new_args(), "claimed_nodes", summary.claimed_nodes);
    let args: Args = with_number(args, "total_nodes", summary.total_nodes);
    let args: Args = with_text(args, "claim_pct", figures.claim_pct.as_str());
    let args: Args = with_number(args, "fused_subgraphs", summary.fused_subgraphs);
    let args: Args = with_number(args, "path_decode", summary.decode_runs);
    let args: Args = with_number(args, "path_prefill", summary.prefill_runs);
    let args: Args = with_number(args, "path_general", summary.general_runs);
    let args: Args = with_number(args, "path_eager", summary.eager_runs);
    let args: Args = with_number(args, "cache_hit", summary.cache_hit);
    let args: Args = with_number(args, "cache_miss", summary.cache_miss);
    let args: Args = with_number(args, "cache_retrace", summary.cache_retrace);
    let args: Args = with_number(args, "managed_wrap_bytes", summary.managed_wrap_bytes);
    let args: Args = with_number(args, "managed_wrap_aligned", summary.managed_wrap_aligned);
    let args: Args = with_number(args, "delta_copyout_bytes", summary.delta_copyout_bytes);
    with_number(args, "full_copyout_bytes", summary.full_copyout_bytes)
}

/// `count` times the same character.
pub open spec fn repeated(c: char, count: nat) -> Seq<char> {
    Seq::new(count, |i: int| c)
}

/// Filled up on the left.
pub open spec fn pad_left(text: Seq<char>, fill: char, width: nat) -> Seq<char> {
    if text.len() < width {
        repeated(fill, (width - text.len()) as nat) + text
    } else {
        text
    }
}

/// Filled up with spaces on the right.
pub open spec fn pad_right(text: Seq<char>, width: nat) -> Seq<char> {
    if text.len() < width {
        text + repeated(' ', (width - text.len()) as nat)
    } else {
        text
    }
}

fn padding(fill: &str, used: usize, width: usize) -> (text: String)
    requires
        fill@.len() == 1,
    ensures
        used < width ==> text@ == repeated(fill@[0], (width - used) as nat),
        used >= width ==> text@ == Seq::<char>::empty(),
{
    let mut text: String = String::new();
    let mut at: usize = used;
    while at < width
        invariant
            fill@.len() == 1,
            used <= at,
            used < width ==> at <= width && text@ == repeated(fill@[0], (at - used) as nat),
            used >= width ==> text@ == Seq::<char>::empty(),
        decreases width - at,
    {
        let ghost before = text@;
        text.append(fill);
        proof {
            assert(text@ =~= repeated(fill@[0], (at + 1 - used) as nat));
        }
        at = at + 1;
    }
    proof {
        if used >= width {
            assert(text@ =~= Seq::<char>::empty());
        }
    }
    text
}

fn fill_left(text: &str, fill: &str, width: usize) -> (padded: String)
    requires
        fill@.len() == 1,
    ensures
        padded@ == pad_left(text@, fill@[0], width as nat),
{
    let used: usize = text.unicode_len();
    let padded: String = join2(padding(fill, used, width).as_str(), text);
    proof {
        if used >= width {
            assert(padded@ =~= text@);
        }
    }
    padded
}

fn fill_right(text: &str, width: usize) -> (padded: String)
    ensures
        padded@ == pad_right(text@, width as nat),
{
    let used: usize = text.unicode_len();
    proof {
        reveal_strlit(" ");
    }
    let padded: String = join2(text, padding(" ", used, width).as_str());
    proof {
        if used >= width {
            assert(padded@ =~= text@);
        }
    }
    padded
}

/// What the times are.
pub open spec fn timing_kind() -> Seq<char> {
    "build-time (fusion intact; per-kernel GPU detail: ONNXRUNTIME_EP_MLX_GPU_CAPTURE)"@
}

/// The slowest operators, slowest first.
pub open spec fn slowest_order(entries: Seq<TimeEntry>) -> Seq<int> {
    ranked(time_names(entries), time_weights(entries)).take(at_most(entries.len(), SLOWEST_LISTED))
}

/// Picks the slowest operators, slowest first.
pub fn slowest(table: &TimeTable) -> (order: Vec<usize>)
    requires
        table.wf(),
    ensures
        ints(order@) == slowest_order(table.entries@),
        order@.len() == at_most(table.entries@.len(), SLOWEST_LISTED),
        forall|x: int| 0 <= x < order@.len() ==> #[trigger] order@[x] < table.entries@.len(),
{
    let all: Vec<usize> = table.by_time();
    let mut order: Vec<usize> = Vec::new();
    while order.len() < all.len() && order.len() < SLOWEST_LISTED
        invariant
            order@.len() <= all@.len(),
            order@.len() <= SLOWEST_LISTED,
            forall|x: int| 0 <= x < order@.len() ==> #[trigger] order@[x] == all@[x],
        decreases all@.len() - order@.len(),
    {
        let next: usize = all[order.len()];
        order.push(next);
    }
    proof {
        let full = ranked(time_names(table.entries@), time_weights(table.entries@));
        assert(full.len() == ints(all@).len());
        assert forall|x: int| 0 <= x < order@.len() implies #[trigger] order@[x]
            < table.entries@.len() by {
            assert(all@[x] < table.entries@.len());
        }
        assert forall|x: int| 0 <= x < order@.len() implies ints(order@)[x] == full[x] by {
            assert(order@[x] == all@[x]);
            assert(ints(all@)[x] == all@[x]);
        }
        assert(ints(order@) =~= slowest_order(table.entries@));
    }
    order
}

/// One slow operator; `place` counts from one.
pub open spec fn slow_line(entry: TimeEntry, place: nat, share: Seq<char>) -> Seq<char> {
    "  "@ + pad_left(decimal(place), ' ', 2) + ". "@ + pad_right(entry.name@, 20) + " "@ + pad_left(
        decimal(entry.micros as nat),
        ' ',
        10,
    ) + " us  "@ + pad_left(share, ' ', 5) + "%  ("@ + decimal(entry.calls as nat) + " call(s))\n"@
}

/// The first `k` slow operators.
pub open spec fn slow_lines(
    entries: Seq<TimeEntry>,
    order: Seq<int>,
    shares: Seq<Seq<char>>,
    k: int,
) -> Seq<char>
    decreases k,
{
    if k <= 0 {
        Seq::empty()
    } else {
        slow_lines(entries, order, shares, k - 1) + slow_line(
            entries[order[k - 1]],
            k as nat,
            shares[k - 1],
        )
    }
}

/// The report on the slowest operators; `shares` are their shares of the total.
pub open spec fn slowest_words(table: TimeTable, shares: Seq<Seq<char>>) -> Seq<char> {
    let order = slowest_order(table.entries@);
    "slowest ops ("@ + timing_kind() + "), total "@ + decimal(table.total as nat) + " us across "@
        + decimal(order.len()) + " op-type(s):\n"@ + slow_lines(
        table.entries@,
        order,
        shares,
        order.len() as int,
    )
}

/// Writes the report on the slowest operators.
pub fn slowest_text(table: &TimeTable, order: &Vec<usize>, shares: &Vec<String>) -> (text: String)
    requires
        table.wf(),
        ints(order@) == slowest_order(table.entries@),
        shares@.len() == order@.len(),
        forall|x: int| 0 <= x < order@.len() ==> #[trigger] order@[x] < table.entries@.len(),
    ensures
        text@ == slowest_words(*table, texts(shares@)),
{
    let ghost entries = table.entries@;
    let ghost all = texts(shares@);
    let mut text: String = join3(
        "slowest ops (",
        "build-time (fusion intact; per-kernel GPU detail: ONNXRUNTIME_EP_MLX_GPU_CAPTURE)",
        "), total ",
    );
    text.append(decimal_text(table.total).as_str());
    text.append(" us across ");
    text.append(decimal_text(order.len() as u64).as_str());
    text.append(" op-type(s):\n");
    let mut lines: String = String::new();
    let mut at: usize = 0;
    proof {
        assert(ints(order@).len() == order@.len());
        reveal_strlit(" ");
    }
    while at < order.len()
        invariant
            at <= order@.len(),
            entries == table.entries@,
            all == texts(shares@),
            shares@.len() == order@.len(),
            " "@.len() == 1,
            " "@[0] == ' ',
            forall|x: int| 0 <= x < order@.len() ==> #[trigger] order@[x] < entries.len(),
            lines@ == slow_lines(entries, ints(order@), all, at as int),
        decreases order@.len() - at,
    {
        assert(order@[at as int] < entries.len());
        assert(ints(order@)[at as int] == order@[at as int]);
        let entry: &TimeEntry = &table.entries[order[at]];
        let place: String = decimal_text(at as u64 + 1);
        let mut line: String = join3("  ", fill_left(place.as_str(), " ", 2).as_str(), ". ");
        line.append(fill_right(entry.name.as_str(), 20).as_str());
        line.append(" ");
        line.append(fill_left(decimal_text(entry.micros).as_str(), " ", 10).as_str());
        line.append(" us  ");
        line.append(fill_left(shares[at].as_str(), " ", 5).as_str());
        line.append("%  (");
        line.append(decimal_text(entry.calls).as_str());
        line.append(" call(s))\n");
        lines.append(line.as_str());
        proof {
            assert(all[at as int] == shares@[at as int]@);
            assert(line@ == slow_line(
                entries[order@[at as int] as int],
                (at + 1) as nat,
                all[at as int],
            ));
        }
        at = at + 1;
    }
    text.append(lines.as_str());
    text
}

/// The arguments with those of the first `k` slow operators.
pub open spec fn with_slow(
    args: Map<Seq<char>, ArgValue>,
    entries: Seq<TimeEntry>,
    order: Seq<int>,
    shares: Seq<Seq<char>>,
    k: int,
) -> Map<Seq<char>, ArgValue>
    decreases k,
{
    if k <= 0 {
        args
    } else {
        let entry = entries[order[k - 1]];
        with_slow(args, entries, order, shares, k - 1).insert(
            pad_left(decimal(k as nat), '0', 2) + "_"@ + entry.name@,
            ArgValue::Text(
                decimal(entry.micros as nat) + "us "@ + shares[k - 1] + "% x"@ + decimal(
                    entry.calls as nat,
                ),
            ),
        )
    }
}

/// The arguments of the event that carries the report.
pub open spec fn slowest_arg_map(
    table: TimeTable,
    shares: Seq<Seq<char>>,
) -> Map<Seq<char>, ArgValue> {
    let order = slowest_order(table.entries@);
    with_slow(
        no_args().insert("timing_kind"@, ArgValue::Text(timing_kind())).insert(
            "total_us"@,
            ArgValue::Number(table.total),
        ),
        table.entries@,
        order,
        shares,
        order.len() as int,
    )
}

/// The arguments of the event that carries the report.
pub fn slowest_args(table: &TimeTable, order: &Vec<usize>, shares: &Vec<String>) -> (args: Args)
    requires
        table.wf(),
        ints(order@) == slowest_order(table.entries@),
        shares@.len() == order@.len(),
        forall|x: int| 0 <= x < order@.len() ==> #[trigger] order@[x] < table.entries@.len(),
    ensures
        args_state(args) == slowest_arg_map(*table, texts(shares@)),
{
    let ghost entries = table.entries@;
    let ghost all = texts(shares@);
    let args: Args = with_text(
        new_args(),
        "timing_kind",
        "build-time (fusion intact; per-kernel GPU detail: ONNXRUNTIME_EP_MLX_GPU_CAPTURE)",
    );
    let mut args: Args = with_number(args, "total_us", table.total);
    let ghost base = args_state(args);
    let mut at: usize = 0;
    proof {
        assert(ints(order@).len() == order@.len());
        reveal_strlit("0");
    }
    while at < order.len()
        invariant
            at <= order@.len(),
            entries == table.entries@,
            all == texts(shares@),
            shares@.len() == order@.len(),
            "0"@.len() == 1,
            "0"@[0] == '0',
            forall|x: int| 0 <= x < order@.len() ==> #[trigger] order@[x] < entries.len(),
            args_state(args) == with_slow(base, entries, ints(order@), all, at as int),
        decreases order@.len() - at,
    {
        assert(order@[at as int] < entries.len());
        assert(ints(order@)[at as int] == order@[at as int]);
        let entry: &TimeEntry = &table.entries[order[at]];
        let place: String = decimal_text(at as u64 + 1);
        let key: String = join3(
            fill_left(place.as_str(), "0", 2).as_str(),
            "_",
            entry.name.as_str(),
        );
        let mut value: String = join3(
            decimal_text(entry.micros).as_str(),
            "us ",
            shares[at].as_str(),
        );
        value.append("% x");
        value.append(decimal_text(entry.calls).as_str());
        assert(all[at as int] == shares@[at as int]@);
        args = with_text(args, key.as_str(), value.as_str());
        at = at + 1;
    }
    args
}

/// The report lists no more than ten operators, no operator is slower than one listed before it,
/// and none that is left out is slower than the last one listed.
pub proof fn law_slowest_first(table: TimeTable, i: int, j: int)
    requires
        table.wf(),
        0 <= i < slowest_order(table.entries@).len(),
        i <= j < ranked(time_names(table.entries@), time_weights(table.entries@)).len(),
    ensures
        table.entries@[slowest_order(table.entries@)[i]].micros >= table.entries@[ranked(
            time_names(table.entries@),
            time_weights(table.entries@),
        )[j]].micros,
{
    let names = time_names(table.entries@);
    let weights = time_weights(table.entries@);
    let full = ranked(names, weights);
    crate::ranking::lemma_rankable(names, weights);
    assert(slowest_order(table.entries@)[i] == full[i]);
    assert(full.contains(full[i]));
    assert(full.contains(full[j]));
    if i < j {
        assert(crate::ranking::outranks(names, weights, full[i], full[j]));
    }
}

} // verus!
