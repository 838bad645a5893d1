//! How often each operator was declined, and why, over a whole session.

use vstd::prelude::*;

use crate::ranking::{all_distinct, rank, ranked, strs};
use crate::rejection::Rejection;
use crate::text::same_text;

verus! {

/// The declined nodes of one operator.
pub struct DeclinedOp {
    pub op: String,
    pub count: u64,
    pub reason: String,
}

/// The declined operators in the order in which they were first seen.
pub struct DeclinedTable {
    pub entries: Vec<DeclinedOp>,
    /// The declined nodes of all operators.
    pub total: u64,
}

pub open spec fn declined_names(entries: Seq<DeclinedOp>) -> Seq<Seq<char>> {
    Seq::new(entries.len(), |i: int| entries[i].op@)
}

pub open spec fn declined_weights(entries: Seq<DeclinedOp>) -> Seq<u64> {
    Seq::new(entries.len(), |i: int| entries[i].count)
}

pub open spec fn declined_map(entries: Seq<DeclinedOp>) -> Map<Seq<char>, (u64, Seq<char>)>
    decreases entries.len(),
{
    if entries.len() == 0 {
        Map::empty()
    } else {
        declined_map(entries.drop_last()).insert(
            entries.last().op@,
            (entries.last().count, entries.last().reason@),
        )
    }
}

pub proof fn lemma_declined_map(entries: Seq<DeclinedOp>)
    requires
        all_distinct(declined_names(entries)),
    ensures
        forall|i: int|
            0 <= i < entries.len() ==> declined_map(entries).contains_key(
                (#[trigger] entries[i]).op@,
            ) && declined_map(entries)[entries[i].op@] == (entries[i].count, entries[i].reason@),
        forall|op: Seq<char>| #[trigger]
            declined_map(entries).contains_key(op) ==> exists|i: int|
                0 <= i < entries.len() && (#[trigger] entries[i]).op@ == op,
    decreases entries.len(),
{
    if entries.len() > 0 {
        let front = entries.drop_last();
        let names = declined_names(entries);
        assert(all_distinct(declined_names(front))) by {
            assert forall|i: int, j: int| 0 <= i < j < front.len() implies #[trigger] declined_names(
                front,
            )[i] != #[trigger] declined_names(front)[j] by {
                assert(names[i] != names[j]);
            }
        }
        lemma_declined_map(front);
        let end = entries.len() - 1;
        assert forall|i: int| 0 <= i < entries.len() implies declined_map(entries).contains_key(
            (#[trigger] entries[i]).op@,
        ) && declined_map(entries)[entries[i].op@] == (entries[i].count, entries[i].reason@) by {
            if i < end {
                assert(front[i] == entries[i]);
                assert(names[i] != names[end]);
            }
        }
        assert forall|op: Seq<char>| #[trigger]
            declined_map(entries).contains_key(op) implies exists|i: int|
            0 <= i < entries.len() && (#[trigger] entries[i]).op@ == op by {
            if op == entries[end].op@ {
                assert(entries[end].op@ == op);
            } else {
                assert(declined_map(front).contains_key(op));
                let i = choose|i: int| 0 <= i < front.len() && (#[trigger] front[i]).op@ == op;
                assert(entries[i].op@ == op);
            }
        }
    }
}

impl View for DeclinedTable {
    type V = Map<Seq<char>, (u64, Seq<char>)>;

    open spec fn view(&self) -> Map<Seq<char>, (u64, Seq<char>)> {
        declined_map(self.entries@)
    }
}

/// The table after `count` more nodes; a reason that says something replaces the last one.
pub open spec fn declined_added(
    map: Map<Seq<char>, (u64, Seq<char>)>,
    op: Seq<char>,
    count: nat,
    reason: Seq<char>,
) -> Map<Seq<char>, (u64, Seq<char>)> {
    let before = if map.contains_key(op) {
        map[op]
    } else {
        (0u64, Seq::empty())
    };
    map.insert(
        op,
        (
            (before.0 + count) as u64,
            if reason.len() == 0 {
                before.1
            } else {
                reason
            },
        ),
    )
}

/// The table after the first `k` rejections.
pub open spec fn declined_below(
    map: Map<Seq<char>, (u64, Seq<char>)>,
    rejected: Seq<Rejection>,
    k: int,
) -> Map<Seq<char>, (u64, Seq<char>)>
    decreases k,
{
    if k <= 0 {
        map
    } else {
        declined_added(
            declined_below(map, rejected, k - 1),
            rejected[k - 1].op@,
            rejected[k - 1].count as nat,
            rejected[k - 1].reason@,
        )
    }
}

/// The nodes of the first `k` rejections.
pub open spec fn refused_nodes(rejected: Seq<Rejection>, k: int) -> nat
    decreases k,
{
    if k <= 0 {
        0
    } else {
        refused_nodes(rejected, k - 1) + rejected[k - 1].count as nat
    }
}

proof fn lemma_refused_nodes(rejected: Seq<Rejection>, k: int, n: int)
    requires
        k <= n,
    ensures
        refused_nodes(rejected, k) <= refused_nodes(rejected, n),
    decreases n - k,
{
    if k < n {
        lemma_refused_nodes(rejected, k, n - 1);
    }
}

/// Adds up the nodes of rejections, if the sum fits.
pub fn count_refused(rejected: &Vec<Rejection>) -> (count: Option<u64>)
    ensures
        match count {
            Some(count) => count == refused_nodes(rejected@, rejected@.len() as int),
            None => refused_nodes(rejected@, rejected@.len() as int) > u64::MAX,
        },
{
    let mut count: u64 = 0;
    let mut at: usize = 0;
    while at < rejected.len()
        invariant
            at <= rejected@.len(),
            count == refused_nodes(rejected@, at as int),
        decreases rejected@.len() - at,
    {
        match count.checked_add(rejected[at].count as u64) {
            None => {
                proof {
                    lemma_refused_nodes(rejected@, at + 1, rejected@.len() as int);
                }
                return None;
            },
            Some(sum) => {
                count = sum;
            },
        }
        at = at + 1;
    }
    Some(count)
}

impl DeclinedTable {
    pub open spec fn wf(&self) -> bool {
        &&& all_distinct(declined_names(self.entries@))
        &&& forall|i: int|
            0 <= i < self.entries@.len() ==> (#[trigger] self.entries@[i]).count <= self.total
    }

    pub fn new() -> (table: Self)
        ensures
            table.wf(),
            table.total == 0,
            table.entries@.len() == 0,
            table@ == Map::<Seq<char>, (u64, Seq<char>)>::empty(),
    {
        DeclinedTable { entries: Vec::new(), total: 0 }
    }

    fn decline(&mut self, op: &str, count: u64, reason: &str)
        requires
            old(self).wf(),
            old(self).total + count <= u64::MAX,
        ensures
            final(self).wf(),
            final(self).total == old(self).total + count,
            final(self)@ == declined_added(old(self)@, op@, count as nat, reason@),
    {
        let ghost before = self.entries@;
        let ghost start = self.total;
        proof {
            lemma_declined_map(before);
        }
        let mut at: usize = 0;
        while at < self.entries.len() && !same_text(self.entries[at].op.as_str(), op)
            invariant
                at <= before.len(),
                self.entries@ == before,
                self.total == start,
                forall|i: int| 0 <= i < at ==> (#[trigger] before[i]).op@ != op@,
            decreases before.len() - at,
        {
            at = at + 1;
        }
        self.total = self.total + count;
        if at < self.entries.len() {
            assert(before[at as int].count <= start);
            self.entries[at].count = self.entries[at].count + count;
            if !reason.is_empty() {
                self.entries[at].reason = reason.to_owned();
            }
            proof {
                let now = self.entries@;
                assert(declined_names(now) =~= declined_names(before));
                assert forall|i: int| 0 <= i < now.len() implies (#[trigger] now[i]).count
                    <= self.total by {
                    if i != at {
                        assert(now[i] == before[i]);
                    }
                }
                lemma_same_declined(before, now, at as int, op@, count as nat, reason@);
            }
        } else {
            self.entries.push(
                DeclinedOp { op: op.to_owned(), count, reason: reason.to_owned() },
            );
            proof {
                let now = self.entries@;
                assert(now.drop_last() =~= before);
                let names = declined_names(now);
                assert forall|i: int, j: int| 0 <= i < j < now.len() implies #[trigger] names[i]
                    != #[trigger] names[j] by {
                    assert(before[i] == now[i]);
                    if j < before.len() {
                        assert(declined_names(before)[i] != declined_names(before)[j]);
                    }
                }
                assert forall|i: int| 0 <= i < now.len() implies (#[trigger] now[i]).count
                    <= self.total by {
                    if i < before.len() {
                        assert(now[i] == before[i]);
                    }
                }
                assert(!declined_map(before).contains_key(op@)) by {
                    if declined_map(before).contains_key(op@) {
                        let i = choose|i: int|
                            0 <= i < before.len() && (#[trigger] before[i]).op@ == op@;
                        assert(before[i].op@ != op@);
                    }
                }
                if reason@.len() == 0 {
                    assert(reason@ =~= Seq::<char>::empty());
                }
            }
        }
    }

    /// Adds the rejections of one claim.
    pub fn decline_all(&mut self, rejected: &Vec<Rejection>)
        requires
            old(self).wf(),
            old(self).total + refused_nodes(rejected@, rejected@.len() as int) <= u64::MAX,
        ensures
            final(self).wf(),
            final(self).total == old(self).total + refused_nodes(
                rejected@,
                rejected@.len() as int,
            ),
            final(self)@ == declined_below(old(self)@, rejected@, rejected@.len() as int),
    {
        let ghost start = *self;
        let mut at: usize = 0;
        while at < rejected.len()
            invariant
                at <= rejected@.len(),
                self.wf(),
                start.total + refused_nodes(rejected@, rejected@.len() as int) <= u64::MAX,
                self.total == start.total + refused_nodes(rejected@, at as int),
                self@ == declined_below(start@, rejected@, at as int),
            decreases rejected@.len() - at,
        {
            proof {
                lemma_refused_nodes(rejected@, at + 1, rejected@.len() as int);
            }
            self.decline(
                rejected[at].op.as_str(),
                rejected[at].count as u64,
                rejected[at].reason.as_str(),
            );
            at = at + 1;
        }
    }

    /// The entries by falling count.
    pub fn by_count(&self) -> (order: Vec<usize>)
        requires
            self.wf(),
        ensures
            crate::digraph::ints(order@) == ranked(
                declined_names(self.entries@),
                declined_weights(self.entries@),
            ),
            order@.len() == self.entries@.len(),
            forall|x: int| 0 <= x < order@.len() ==> #[trigger] order@[x] < self.entries@.len(),
    {
        let mut names: Vec<&str> = Vec::new();
        let mut weights: Vec<u64> = Vec::new();
        while names.len() < self.entries.len()
            invariant
                names@.len() <= self.entries@.len(),
                weights@.len() == names@.len(),
                forall|i: int| 0 <= i < names@.len() ==> (#[trigger] names@[i])@
                    == self.entries@[i].op@,
                forall|i: int| 0 <= i < weights@.len() ==> #[trigger] weights@[i]
                    == self.entries@[i].count,
            decreases self.entries@.len() - names@.len(),
        {
            let at: usize = names.len();
            names.push(self.entries[at].op.as_str());
            weights.push(self.entries[at].count);
        }
        proof {
            assert(strs(names@) =~= declined_names(self.entries@));
            assert(weights@ =~= declined_weights(self.entries@));
        }
        rank(&names, &weights)
    }
}

proof fn lemma_same_declined(
    before: Seq<DeclinedOp>,
    now: Seq<DeclinedOp>,
    at: int,
    op: Seq<char>,
    count: nat,
    reason: Seq<char>,
)
    requires
        0 <= at < before.len(),
        all_distinct(declined_names(before)),
        all_distinct(declined_names(now)),
        now.len() == before.len(),
        before[at].op@ == op,
        now[at].op@ == op,
        now[at].count == before[at].count + count,
        now[at].reason@ == (if reason.len() == 0 {
            before[at].reason@
        } else {
            reason
        }),
        forall|i: int| 0 <= i < before.len() && i != at ==> #[trigger] now[i] == before[i],
    ensures
        declined_map(now) == declined_added(declined_map(before), op, count, reason),
{
    lemma_declined_map(before);
    lemma_declined_map(now);
    let goal = declined_added(declined_map(before), op, count, reason);
    assert forall|key: Seq<char>| #[trigger]
        declined_map(now).contains_key(key) <==> goal.contains_key(key) by {
        if declined_map(now).contains_key(key) {
            let i = choose|i: int| 0 <= i < now.len() && (#[trigger] now[i]).op@ == key;
            if i != at {
                assert(now[i] == before[i]);
                assert(declined_map(before).contains_key(before[i].op@));
            }
        }
        if declined_map(before).contains_key(key) {
            let i = choose|i: int| 0 <= i < before.len() && (#[trigger] before[i]).op@ == key;
            if i != at {
                assert(now[i] == before[i]);
            }
            assert(declined_map(now).contains_key(now[i].op@));
        }
        assert(declined_map(now).contains_key(now[at].op@));
    }
    assert forall|key: Seq<char>| #[trigger]
        declined_map(now).contains_key(key) implies declined_map(now)[key] == goal[key] by {
        let i = choose|i: int| 0 <= i < now.len() && (#[trigger] now[i]).op@ == key;
        assert(declined_map(now)[now[i].op@] == (now[i].count, now[i].reason@));
        assert(declined_map(before)[before[at].op@] == (before[at].count, before[at].reason@));
        if i != at {
            assert(now[i] == before[i]);
            assert(declined_map(before)[before[i].op@] == (before[i].count, before[i].reason@));
            assert(declined_names(now)[i] == now[i].op@ && declined_names(now)[at] == op);
            if i < at {
                assert(declined_names(now)[i] != declined_names(now)[at]);
            } else {
                assert(declined_names(now)[at] != declined_names(now)[i]);
            }
        }
    }
    assert(declined_map(now) =~= goal);
}

} // verus!
