//! Tables of named counters for the session digest.

use vstd::prelude::*;

use crate::ranking::{all_distinct, rank, ranked, strs};
use crate::text::same_text;

verus! {

/// Time spent under a name.
pub struct TimeEntry {
    pub name: String,
    pub micros: u64,
    pub calls: u64,
}

/// Time by name, in the order in which the names were first seen.
pub struct TimeTable {
    pub entries: Vec<TimeEntry>,
    /// The time of all entries.
    pub total: u64,
    /// The calls of all entries.
    pub calls: u64,
}

pub open spec fn time_names(entries: Seq<TimeEntry>) -> Seq<Seq<char>> {
    Seq::new(entries.len(), |i: int| entries[i].name@)
}

pub open spec fn time_weights(entries: Seq<TimeEntry>) -> Seq<u64> {
    Seq::new(entries.len(), |i: int| entries[i].micros)
}

pub open spec fn micros_sum(entries: Seq<TimeEntry>) -> nat
    decreases entries.len(),
{
    if entries.len() == 0 {
        0
    } else {
        micros_sum(entries.drop_last()) + entries.last().micros as nat
    }
}

pub open spec fn calls_sum(entries: Seq<TimeEntry>) -> nat
    decreases entries.len(),
{
    if entries.len() == 0 {
        0
    } else {
        calls_sum(entries.drop_last()) + entries.last().calls as nat
    }
}

proof fn lemma_sum_update(entries: Seq<TimeEntry>, at: int, entry: TimeEntry)
    requires
        0 <= at < entries.len(),
    ensures
        micros_sum(entries.update(at, entry)) == micros_sum(entries) - entries[at].micros
            + entry.micros,
        calls_sum(entries.update(at, entry)) == calls_sum(entries) - entries[at].calls
            + entry.calls,
        entries[at].micros <= micros_sum(entries),
        entries[at].calls <= calls_sum(entries),
    decreases entries.len(),
{
    let now = entries.update(at, entry);
    if at == entries.len() - 1 {
        assert(now.drop_last() =~= entries.drop_last());
    } else {
        assert(now.drop_last() =~= entries.drop_last().update(at, entry));
        lemma_sum_update(entries.drop_last(), at, entry);
    }
}

/// The names and what is known of them.
pub open spec fn time_map(entries: Seq<TimeEntry>) -> Map<Seq<char>, (u64, u64)>
    decreases entries.len(),
{
    if entries.len() == 0 {
        Map::empty()
    } else {
        time_map(entries.drop_last()).insert(
            entries.last().name@,
            (entries.last().micros, entries.last().calls),
        )
    }
}

pub proof fn lemma_time_map(entries: Seq<TimeEntry>)
    requires
        all_distinct(time_names(entries)),
    ensures
        forall|i: int|
            0 <= i < entries.len() ==> time_map(entries).contains_key((#[trigger] entries[i]).name@)
                && time_map(entries)[entries[i].name@] == (entries[i].micros, entries[i].calls),
        forall|name: Seq<char>| #[trigger]
            time_map(entries).contains_key(name) ==> exists|i: int|
                0 <= i < entries.len() && (#[trigger] entries[i]).name@ == name,
    decreases entries.len(),
{
    if entries.len() > 0 {
        let front = entries.drop_last();
        let names = time_names(entries);
        assert(all_distinct(time_names(front))) by {
            assert forall|i: int, j: int| 0 <= i < j < front.len() implies #[trigger] time_names(
                front,
            )[i] != #[trigger] time_names(front)[j] by {
                assert(names[i] != names[j]);
            }
        }
        lemma_time_map(front);
        let end = entries.len() - 1;
        assert forall|i: int| 0 <= i < entries.len() implies time_map(entries).contains_key(
            (#[trigger] entries[i]).name@,
        ) && time_map(entries)[entries[i].name@] == (entries[i].micros, entries[i].calls) by {
            if i < end {
                assert(front[i] == entries[i]);
                assert(names[i] != names[end]);
            }
        }
        assert forall|name: Seq<char>| #[trigger]
            time_map(entries).contains_key(name) implies exists|i: int|
            0 <= i < entries.len() && (#[trigger] entries[i]).name@ == name by {
            if name == entries[end].name@ {
                assert(entries[end].name@ == name);
            } else {
                assert(time_map(front).contains_key(name));
                let i = choose|i: int| 0 <= i < front.len() && (#[trigger] front[i]).name@ == name;
                assert(entries[i].name@ == name);
            }
        }
    }
}

impl View for TimeTable {
    type V = Map<Seq<char>, (u64, u64)>;

    open spec fn view(&self) -> Map<Seq<char>, (u64, u64)> {
        time_map(self.entries@)
    }
}

/// What was known of `name`.
pub open spec fn known_time(map: Map<Seq<char>, (u64, u64)>, name: Seq<char>) -> (u64, u64) {
    if map.contains_key(name) {
        map[name]
    } else {
        (0, 0)
    }
}

/// The table after one more call.
pub open spec fn time_added(
    map: Map<Seq<char>, (u64, u64)>,
    name: Seq<char>,
    micros: u64,
) -> Map<Seq<char>, (u64, u64)> {
    let before = known_time(map, name);
    map.insert(name, ((before.0 + micros) as u64, (before.1 + 1) as u64))
}

impl TimeTable {
    pub open spec fn wf(&self) -> bool {
        &&& all_distinct(time_names(self.entries@))
        &&& self.total == micros_sum(self.entries@)
        &&& self.calls == calls_sum(self.entries@)
    }

    pub fn new() -> (table: Self)
        ensures
            table.wf(),
            table.total == 0,
            table.calls == 0,
            table.entries@.len() == 0,
            table@ == Map::<Seq<char>, (u64, u64)>::empty(),
    {
        TimeTable { entries: Vec::new(), total: 0, calls: 0 }
    }

    /// Adds one call that took `micros`.
    pub fn record(&mut self, name: &str, micros: u64)
        requires
            old(self).wf(),
            old(self).total + micros <= u64::MAX,
            old(self).calls < u64::MAX,
        ensures
            final(self).wf(),
            final(self).total == old(self).total + micros,
            final(self).calls == old(self).calls + 1,
            final(self)@ == time_added(old(self)@, name@, micros),
    {
        let ghost before = self.entries@;
        proof {
            lemma_time_map(before);
        }
        let mut at: usize = 0;
        while at < self.entries.len() && !same_text(self.entries[at].name.as_str(), name)
            invariant
                at <= before.len(),
                self.entries@ == before,
                self.total == old(self).total,
                self.calls == old(self).calls,
                forall|i: int| 0 <= i < at ==> (#[trigger] before[i]).name@ != name@,
            decreases before.len() - at,
        {
            at = at + 1;
        }
        self.total = self.total + micros;
        self.calls = self.calls + 1;
        if at < self.entries.len() {
            let ghost entry = before[at as int];
            proof {
                lemma_sum_update(before, at as int, entry);
            }
            self.entries[at].micros = self.entries[at].micros + micros;
            self.entries[at].calls = self.entries[at].calls + 1;
            proof {
                let now = self.entries@;
                let changed = now[at as int];
                assert(now =~= before.update(at as int, changed));
                lemma_sum_update(before, at as int, changed);
                assert(time_names(now) =~= time_names(before));
                lemma_time_map(now);
                lemma_same_times(before, now, at as int, name@, micros);
            }
        } else {
            self.entries.push(TimeEntry { name: name.to_owned(), micros, calls: 1 });
            proof {
                let now = self.entries@;
                assert(now.drop_last() =~= before);
                let names = time_names(now);
                assert forall|i: int, j: int| 0 <= i < j < now.len() implies #[trigger] names[i]
                    != #[trigger] names[j] by {
                    assert(before[i] == now[i]);
                    if j < before.len() {
                        assert(time_names(before)[i] != time_names(before)[j]);
                    }
                }
                assert(!time_map(before).contains_key(name@)) by {
                    if time_map(before).contains_key(name@) {
                        let i = choose|i: int|
                            0 <= i < before.len() && (#[trigger] before[i]).name@ == name@;
                        assert(before[i].name@ != name@);
                    }
                }
            }
        }
    }

    /// The entries by falling time.
    pub fn by_time(&self) -> (order: Vec<usize>)
        requires
            self.wf(),
        ensures
            crate::digraph::ints(order@) == ranked(
                time_names(self.entries@),
                time_weights(self.entries@),
            ),
            order@.len() == self.entries@.len(),
            forall|x: int| 0 <= x < order@.len() ==> #[trigger] order@[x] < self.entries@.len(),
    {
        let mut names: Vec<&str> = Vec::new();
        let mut weights: Vec<u64> = Vec::new();
        while names.len() < self.entries.len()
            invariant
                names@.len() <= self.entries@.len(),
                weights@.len() == names@.len(),
                forall|i: int| 0 <= i < names@.len() ==> (#[trigger] names@[i])@
                    == self.entries@[i].name@,
                forall|i: int| 0 <= i < weights@.len() ==> #[trigger] weights@[i]
                    == self.entries@[i].micros,
            decreases self.entries@.len() - names@.len(),
        {
            let at: usize = names.len();
            names.push(self.entries[at].name.as_str());
            weights.push(self.entries[at].micros);
        }
        proof {
            assert(strs(names@) =~= time_names(self.entries@));
            assert(weights@ =~= time_weights(self.entries@));
        }
        rank(&names, &weights)
    }

    /// The entries by rising name.
    pub fn by_name(&self) -> (order: Vec<usize>)
        requires
            self.wf(),
        ensures
            crate::digraph::ints(order@) == ranked(
                time_names(self.entries@),
                no_weights(self.entries@.len()),
            ),
            order@.len() == self.entries@.len(),
            forall|x: int| 0 <= x < order@.len() ==> #[trigger] order@[x] < self.entries@.len(),
    {
        let mut names: Vec<&str> = Vec::new();
        let mut weights: Vec<u64> = Vec::new();
        while names.len() < self.entries.len()
            invariant
                names@.len() <= self.entries@.len(),
                weights@.len() == names@.len(),
                forall|i: int| 0 <= i < names@.len() ==> (#[trigger] names@[i])@
                    == self.entries@[i].name@,
                forall|i: int| 0 <= i < weights@.len() ==> #[trigger] weights@[i] == 0,
            decreases self.entries@.len() - names@.len(),
        {
            let at: usize = names.len();
            names.push(self.entries[at].name.as_str());
            weights.push(0);
        }
        proof {
            assert(strs(names@) =~= time_names(self.entries@));
            assert(weights@ =~= no_weights(self.entries@.len()));
        }
        rank(&names, &weights)
    }
}

/// Equal weights.
pub open spec fn no_weights(len: nat) -> Seq<u64> {
    Seq::new(len, |i: int| 0u64)
}

proof fn lemma_same_times(
    before: Seq<TimeEntry>,
    now: Seq<TimeEntry>,
    at: int,
    name: Seq<char>,
    micros: u64,
)
    requires
        0 <= at < before.len(),
        all_distinct(time_names(before)),
        all_distinct(time_names(now)),
        now.len() == before.len(),
        before[at].name@ == name,
        now[at].name@ == name,
        now[at].micros == before[at].micros + micros,
        now[at].calls == before[at].calls + 1,
        forall|i: int| 0 <= i < before.len() && i != at ==> #[trigger] now[i] == before[i],
    ensures
        time_map(now) == time_added(time_map(before), name, micros),
{
    lemma_time_map(before);
    lemma_time_map(now);
    let goal = time_added(time_map(before), name, micros);
    assert forall|key: Seq<char>| #[trigger] time_map(now).contains_key(key) <==> goal.contains_key(
        key,
    ) by {
        if time_map(now).contains_key(key) {
            let i = choose|i: int| 0 <= i < now.len() && (#[trigger] now[i]).name@ == key;
            if i != at {
                assert(now[i] == before[i]);
                assert(time_map(before).contains_key(before[i].name@));
            }
        }
        if time_map(before).contains_key(key) {
            let i = choose|i: int| 0 <= i < before.len() && (#[trigger] before[i]).name@ == key;
            if i != at {
                assert(now[i] == before[i]);
            }
            assert(time_map(now).contains_key(now[i].name@));
        }
        assert(time_map(now).contains_key(now[at].name@));
    }
    assert forall|key: Seq<char>| #[trigger] time_map(now).contains_key(key) implies time_map(now)[key]
        == goal[key] by {
        let i = choose|i: int| 0 <= i < now.len() && (#[trigger] now[i]).name@ == key;
        assert(time_map(now)[now[i].name@] == (now[i].micros, now[i].calls));
        assert(time_map(before)[before[at].name@] == (before[at].micros, before[at].calls));
        if i != at {
            assert(now[i] == before[i]);
            assert(time_map(before)[before[i].name@] == (before[i].micros, before[i].calls));
            assert(time_names(now)[i] == now[i].name@ && time_names(now)[at] == name);
            if i < at {
                assert(time_names(now)[i] != time_names(now)[at]);
            } else {
                assert(time_names(now)[at] != time_names(now)[i]);
            }
        }
    }
    assert(time_map(now) =~= goal);
}

} // verus!
