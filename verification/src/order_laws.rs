//! The orders in which names and reports are listed.

use vstd::prelude::*;

use crate::declined::{declined_names, declined_weights, DeclinedOp};
use crate::lex::lex_less;
use crate::ranking::{all_distinct, lemma_rankable, outranks, ranked};
use crate::report::{
    declined_line, declined_lines, declined_part, phase_text, phase_texts, slowest_order,
};
use crate::tables::{no_weights, time_names, time_weights, TimeEntry};
use crate::trace_args::joined;

verus! {

/// A text comes before another exactly if they agree up to some place and there it ends, or has the
/// lesser character, while the other goes on.
pub proof fn law_dictionary_order(a: Seq<char>, b: Seq<char>)
    ensures
        lex_less(a, b) <==> exists|k: int|
            {
                &&& 0 <= k <= a.len()
                &&& k < b.len()
                &&& #[trigger] a.take(k) == b.take(k)
                &&& k == a.len() || a[k] < b[k]
            },
    decreases a.len(),
{
    if lex_less(a, b) {
        if a.len() == 0 || a[0] != b[0] {
            assert(a.take(0) =~= b.take(0));
        } else {
            let (x, y) = (a.drop_first(), b.drop_first());
            law_dictionary_order(x, y);
            let k = choose|k: int|
                {
                    &&& 0 <= k <= x.len()
                    &&& k < y.len()
                    &&& #[trigger] x.take(k) == y.take(k)
                    &&& k == x.len() || x[k] < y[k]
                };
            assert forall|i: int| 0 <= i < k + 1 implies #[trigger] a[i] == b[i] by {
                if i > 0 {
                    assert(x.take(k)[i - 1] == y.take(k)[i - 1]);
                }
            }
            assert(a.take(k + 1) =~= b.take(k + 1));
        }
    }
    if exists|k: int|
        {
            &&& 0 <= k <= a.len()
            &&& k < b.len()
            &&& #[trigger] a.take(k) == b.take(k)
            &&& k == a.len() || a[k] < b[k]
        } {
        let k = choose|k: int|
            {
                &&& 0 <= k <= a.len()
                &&& k < b.len()
                &&& #[trigger] a.take(k) == b.take(k)
                &&& k == a.len() || a[k] < b[k]
            };
        if k > 0 {
            assert(a.take(k)[0] == b.take(k)[0]);
            let (x, y) = (a.drop_first(), b.drop_first());
            assert forall|i: int| 0 <= i < k - 1 implies #[trigger] x[i] == y[i] by {
                assert(a.take(k)[i + 1] == b.take(k)[i + 1]);
            }
            assert(x.take(k - 1) =~= y.take(k - 1));
            law_dictionary_order(x, y);
        }
    }
}

/// A ranking lists every entry once, the heaviest first; entries of one weight are listed by their
/// names.
pub proof fn law_ranking(names: Seq<Seq<char>>, weights: Seq<u64>, x: int, y: int)
    requires
        weights.len() == names.len(),
        all_distinct(names),
        0 <= x < y < names.len(),
    ensures
        ranked(names, weights).len() == names.len(),
        forall|i: int| #[trigger] ranked(names, weights).contains(i) <==> 0 <= i < names.len(),
        ({
            let (a, b) = (ranked(names, weights)[x], ranked(names, weights)[y]);
            weights[a] > weights[b] || (weights[a] == weights[b] && lex_less(names[a], names[b]))
        }),
{
    lemma_rankable(names, weights);
    assert(outranks(names, weights, ranked(names, weights)[x], ranked(names, weights)[y]));
}

/// The report on slow operators lists the ten slowest, or all if there are fewer, slowest first.
pub proof fn law_slowest_listed(entries: Seq<TimeEntry>, x: int, y: int)
    requires
        all_distinct(time_names(entries)),
        0 <= x < y < slowest_order(entries).len(),
    ensures
        slowest_order(entries).len() == (if entries.len() < 10 {
            entries.len()
        } else {
            10
        }),
        ({
            let (a, b) = (entries[slowest_order(entries)[x]], entries[slowest_order(entries)[y]]);
            a.micros > b.micros || (a.micros == b.micros && lex_less(a.name@, b.name@))
        }),
{
    let names = time_names(entries);
    let weights = time_weights(entries);
    lemma_rankable(names, weights);
    let order = ranked(names, weights);
    assert(order.contains(order[x]) && order.contains(order[y]));
    assert(outranks(names, weights, order[x], order[y]));
}

/// The digest lists the eight operators of which most nodes were declined, or all if there are
/// fewer, the most frequent first, one line each.
pub proof fn law_declined_listed(entries: Seq<DeclinedOp>)
    requires
        all_distinct(declined_names(entries)),
        entries.len() > 0,
    ensures
        exists|order: Seq<int>|
            {
                &&& #[trigger] order.len() == (if entries.len() < 8 {
                    entries.len()
                } else {
                    8
                })
                &&& forall|x: int|
                    0 <= x < order.len() ==> 0 <= #[trigger] order[x] < entries.len()
                &&& forall|x: int, y: int|
                    0 <= x < y < order.len() ==> {
                        let (a, b) = (entries[#[trigger] order[x]], entries[#[trigger] order[y]]);
                        a.count > b.count || (a.count == b.count && lex_less(a.op@, b.op@))
                    }
                &&& forall|i: int, x: int|
                    0 <= i < entries.len() && !order.contains(i) && 0 <= x < order.len()
                        ==> (#[trigger] entries[i]).count <= entries[#[trigger] order[x]].count
                &&& declined_part(entries) == "           unclaimed (→ CPU):\n"@ + lines_of(
                    entries,
                    order,
                )
            },
{
    let names = declined_names(entries);
    let weights = declined_weights(entries);
    lemma_rankable(names, weights);
    let full = ranked(names, weights);
    let n = if entries.len() < 8 {
        entries.len() as int
    } else {
        8
    };
    let order = full.take(n);
    assert forall|x: int| 0 <= x < full.len() implies 0 <= #[trigger] full[x] < entries.len() by {
        assert(full.contains(full[x]));
    }
    assert forall|x: int, y: int| 0 <= x < y < full.len() implies {
        let (a, b) = (entries[#[trigger] full[x]], entries[#[trigger] full[y]]);
        a.count > b.count || (a.count == b.count && lex_less(a.op@, b.op@))
    } by {
        assert(outranks(names, weights, full[x], full[y]));
    }
    assert forall|i: int, x: int|
        0 <= i < entries.len() && !order.contains(i) && 0 <= x < order.len() implies (
    #[trigger] entries[i]).count <= entries[#[trigger] order[x]].count by {
        assert(full.contains(i));
        let y = choose|y: int| 0 <= y < full.len() && full[y] == i;
        if y < n {
            assert(order[y] == i);
        }
        assert(order[x] == full[x]);
    }
    lemma_lines(entries, full, order, n);
    assert(declined_part(entries) == "           unclaimed (→ CPU):\n"@ + declined_lines(
        entries,
        full,
        n,
    ));
}

/// The lines of the listed entries, in order.
pub open spec fn lines_of(entries: Seq<DeclinedOp>, order: Seq<int>) -> Seq<char>
    decreases order.len(),
{
    if order.len() == 0 {
        Seq::empty()
    } else {
        lines_of(entries, order.drop_last()) + declined_line(entries[order.last()])
    }
}

proof fn lemma_lines(entries: Seq<DeclinedOp>, full: Seq<int>, order: Seq<int>, n: int)
    requires
        0 <= n <= full.len(),
        order == full.take(n),
    ensures
        declined_lines(entries, full, n) == lines_of(entries, order),
    decreases n,
{
    if n > 0 {
        assert(order.drop_last() =~= full.take(n - 1));
        assert(order.last() == full[n - 1]);
        lemma_lines(entries, full, full.take(n - 1), n - 1);
    }
}

/// The digest lists every phase, in the order of their names.
pub proof fn law_phases_by_name(entries: Seq<TimeEntry>, x: int, y: int)
    requires
        all_distinct(time_names(entries)),
        0 <= x < y < entries.len(),
    ensures
        phase_texts(entries).len() == entries.len(),
        exists|a: int, b: int|
            {
                &&& 0 <= a < entries.len()
                &&& 0 <= b < entries.len()
                &&& lex_less((#[trigger] entries[a]).name@, (#[trigger] entries[b]).name@)
                &&& phase_texts(entries)[x] == phase_text(entries[a])
                &&& phase_texts(entries)[y] == phase_text(entries[b])
            },
{
    let names = time_names(entries);
    let weights = no_weights(entries.len());
    lemma_rankable(names, weights);
    let order = ranked(names, weights);
    assert(order.contains(order[x]) && order.contains(order[y]));
    assert(outranks(names, weights, order[x], order[y]));
    let (a, b) = (order[x], order[y]);
    assert(lex_less(entries[a].name@, entries[b].name@));
}

/// Joining puts a separator between every two texts, and none at the ends.
pub proof fn law_joining(list: Seq<Seq<char>>, next: Seq<char>, separator: Seq<char>)
    ensures
        joined(Seq::empty(), separator).len() == 0,
        joined(seq![next], separator) == next,
        list.len() > 0 ==> joined(list.push(next), separator) == joined(list, separator) + separator
            + next,
{
    let more = list.push(next);
    assert(more.drop_last() =~= list);
    assert(more.last() == next);
}

} // verus!
