//! The dictionary order of texts, and lists of bodies sorted by it.

use vstd::prelude::*;

use crate::snapshot::{entries_distinct, SubgraphEntry};
use crate::text::char_list;

verus! {

/// `a` comes before `b` in the order of code points.
pub open spec fn lex_less(a: Seq<char>, b: Seq<char>) -> bool
    decreases a.len(),
{
    if b.len() == 0 {
        false
    } else if a.len() == 0 {
        true
    } else if a[0] != b[0] {
        a[0] < b[0]
    } else {
        lex_less(a.drop_first(), b.drop_first())
    }
}

pub proof fn lemma_lex_irreflexive(a: Seq<char>)
    ensures
        !lex_less(a, a),
    decreases a.len(),
{
    if a.len() > 0 {
        lemma_lex_irreflexive(a.drop_first());
    }
}

pub proof fn lemma_lex_transitive(a: Seq<char>, b: Seq<char>, c: Seq<char>)
    requires
        lex_less(a, b),
        lex_less(b, c),
    ensures
        lex_less(a, c),
    decreases a.len(),
{
    if a.len() > 0 && a[0] == b[0] && b[0] == c[0] {
        lemma_lex_transitive(a.drop_first(), b.drop_first(), c.drop_first());
    }
}

pub proof fn lemma_lex_total(a: Seq<char>, b: Seq<char>)
    ensures
        a == b || lex_less(a, b) || lex_less(b, a),
    decreases a.len(),
{
    if a.len() == 0 || b.len() == 0 {
        if a.len() == 0 && b.len() == 0 {
            assert(a =~= b);
        }
    } else if a[0] == b[0] {
        lemma_lex_total(a.drop_first(), b.drop_first());
        if a.drop_first() == b.drop_first() {
            assert(a =~= seq![a[0]] + a.drop_first());
            assert(b =~= seq![b[0]] + b.drop_first());
        }
    }
}

/// Whether one text comes before another.
pub fn text_less(a: &str, b: &str) -> (less: bool)
    ensures
        less == lex_less(a@, b@),
{
    let left: Vec<char> = char_list(a);
    let right: Vec<char> = char_list(b);
    let mut at: usize = 0;
    proof {
        assert(left@.skip(0) =~= left@);
        assert(right@.skip(0) =~= right@);
    }
    while at < left.len() && at < right.len() && left[at] == right[at]
        invariant
            at <= left@.len(),
            at <= right@.len(),
            left@ == a@,
            right@ == b@,
            lex_less(a@, b@) == lex_less(a@.skip(at as int), b@.skip(at as int)),
        decreases left@.len() - at,
    {
        proof {
            assert(a@.skip(at as int).drop_first() =~= a@.skip(at + 1));
            assert(b@.skip(at as int).drop_first() =~= b@.skip(at + 1));
        }
        at = at + 1;
    }
    if at == right.len() {
        false
    } else if at == left.len() {
        true
    } else {
        left[at] < right[at]
    }
}

/// The bodies of `node`, as indices sorted by attribute.
pub open spec fn is_body_list(entries: Seq<SubgraphEntry>, node: u32, list: Seq<int>) -> bool {
    &&& forall|i: int| #[trigger]
        list.contains(i) <==> 0 <= i < entries.len() && entries[i].node == node
    &&& forall|x: int, y: int|
        0 <= x < y < list.len() ==> lex_less(
            entries[#[trigger] list[x]].attribute@,
            entries[#[trigger] list[y]].attribute@,
        )
}

/// The bodies of `node`, as indices sorted by attribute.
pub open spec fn body_list(entries: Seq<SubgraphEntry>, node: u32) -> Seq<int> {
    choose|list: Seq<int>| is_body_list(entries, node, list)
}

/// There is one sorted list of bodies.
pub proof fn lemma_body_list_unique(
    entries: Seq<SubgraphEntry>,
    node: u32,
    a: Seq<int>,
)
    requires
        is_body_list(entries, node, a),
    ensures
        body_list(entries, node) == a,
{
    let b = body_list(entries, node);
    assert(is_body_list(entries, node, b));
    lemma_sorted_unique(entries, a, b);
}

spec fn sorted_by_attribute(entries: Seq<SubgraphEntry>, list: Seq<int>) -> bool {
    forall|x: int, y: int|
        0 <= x < y < list.len() ==> lex_less(
            entries[#[trigger] list[x]].attribute@,
            entries[#[trigger] list[y]].attribute@,
        )
}

proof fn lemma_sorted_unique(entries: Seq<SubgraphEntry>, a: Seq<int>, b: Seq<int>)
    requires
        sorted_by_attribute(entries, a),
        sorted_by_attribute(entries, b),
        forall|i: int| #[trigger] a.contains(i) <==> b.contains(i),
    ensures
        a == b,
    decreases a.len(),
{
    if a.len() == 0 {
        if b.len() > 0 {
            assert(b.contains(b[0]));
            assert(a.contains(b[0]));
        }
        assert(a =~= b);
    } else {
        assert(a.contains(a[0]));
        assert(b.contains(a[0]));
        assert(a.contains(a[a.len() - 1]));
        assert(b.contains(a.last()));
        let i = choose|i: int| 0 <= i < b.len() && b[i] == a.last();
        assert(b.contains(b[b.len() - 1]));
        assert(a.contains(b.last()));
        let j = choose|j: int| 0 <= j < a.len() && a[j] == b.last();
        if a.last() != b.last() {
            assert(lex_less(entries[b[i]].attribute@, entries[b[b.len() - 1]].attribute@));
            assert(lex_less(entries[a[j]].attribute@, entries[a[a.len() - 1]].attribute@));
            lemma_lex_transitive(
                entries[a.last()].attribute@,
                entries[b.last()].attribute@,
                entries[a.last()].attribute@,
            );
            lemma_lex_irreflexive(entries[a.last()].attribute@);
        }
        let x = a.drop_last();
        let y = b.drop_last();
        assert forall|v: int| #[trigger] x.contains(v) <==> y.contains(v) by {
            if x.contains(v) {
                let k = choose|k: int| 0 <= k < x.len() && x[k] == v;
                assert(a[k] == v);
                assert(a.contains(v));
                assert(b.contains(v));
                let m = choose|m: int| 0 <= m < b.len() && b[m] == v;
                if m == b.len() - 1 {
                    assert(lex_less(entries[a[k]].attribute@, entries[a[a.len() - 1]].attribute@));
                    lemma_lex_irreflexive(entries[v].attribute@);
                }
                assert(y[m] == v);
            }
            if y.contains(v) {
                let k = choose|k: int| 0 <= k < y.len() && y[k] == v;
                assert(b[k] == v);
                assert(b.contains(v));
                assert(a.contains(v));
                let m = choose|m: int| 0 <= m < a.len() && a[m] == v;
                if m == a.len() - 1 {
                    assert(lex_less(entries[b[k]].attribute@, entries[b[b.len() - 1]].attribute@));
                    lemma_lex_irreflexive(entries[v].attribute@);
                }
                assert(x[m] == v);
            }
        }
        lemma_sorted_unique(entries, x, y);
        assert(a =~= x.push(a.last()));
        assert(b =~= y.push(b.last()));
    }
}

/// Where an attribute goes in a list of bodies that is sorted without it.
proof fn lemma_place(entries: Seq<SubgraphEntry>, list: Seq<int>, attribute: Seq<char>) -> (place: int)
    requires
        sorted_by_attribute(entries, list),
        forall|x: int|
            0 <= x < list.len() ==> entries[#[trigger] list[x]].attribute@ != attribute,
    ensures
        0 <= place <= list.len(),
        forall|x: int|
            0 <= x < place ==> lex_less(entries[#[trigger] list[x]].attribute@, attribute),
        forall|x: int|
            place <= x < list.len() ==> lex_less(
                attribute,
                entries[#[trigger] list[x]].attribute@,
            ),
    decreases list.len(),
{
    if list.len() == 0 {
        0
    } else {
        let front = list.drop_last();
        let last = list[list.len() - 1];
        assert forall|x: int| 0 <= x < front.len() implies #[trigger] front[x] == list[x] by {}
        assert(sorted_by_attribute(entries, front));
        let place = lemma_place(entries, front, attribute);
        if place < front.len() {
            assert(lex_less(attribute, entries[front[place]].attribute@));
            assert(lex_less(entries[list[place]].attribute@, entries[list[list.len() - 1]].attribute@));
            lemma_lex_transitive(
                attribute,
                entries[list[place]].attribute@,
                entries[last].attribute@,
            );
            assert forall|x: int| place <= x < list.len() implies lex_less(
                attribute,
                entries[#[trigger] list[x]].attribute@,
            ) by {
                if x < front.len() {
                    assert(front[x] == list[x]);
                }
            }
            assert forall|x: int| 0 <= x < place implies lex_less(
                entries[#[trigger] list[x]].attribute@,
                attribute,
            ) by {
                assert(front[x] == list[x]);
            }
            place
        } else {
            lemma_lex_total(entries[last].attribute@, attribute);
            if lex_less(entries[last].attribute@, attribute) {
                assert forall|x: int| 0 <= x < list.len() implies lex_less(
                    entries[#[trigger] list[x]].attribute@,
                    attribute,
                ) by {
                    if x < front.len() {
                        assert(front[x] == list[x]);
                    }
                }
                list.len() as int
            } else {
                assert forall|x: int| 0 <= x < place implies lex_less(
                    entries[#[trigger] list[x]].attribute@,
                    attribute,
                ) by {
                    assert(front[x] == list[x]);
                }
                place
            }
        }
    }
}

/// The bodies of a node can be sorted.
pub proof fn lemma_body_list_exists(entries: Seq<SubgraphEntry>, node: u32)
    requires
        entries_distinct(entries),
    ensures
        is_body_list(entries, node, body_list(entries, node)),
    decreases entries.len(),
{
    if entries.len() == 0 {
        assert(is_body_list(entries, node, Seq::<int>::empty()));
    } else {
        let front = entries.drop_last();
        let at = entries.len() - 1;
        assert forall|i: int| 0 <= i < front.len() implies #[trigger] front[i] == entries[i] by {}
        assert(entries_distinct(front)) by {
            assert forall|i: int, j: int| 0 <= i < j < front.len() implies (
            #[trigger] front[i]).node != (#[trigger] front[j]).node || front[i].attribute@
                != front[j].attribute@ by {
                assert(front[i] == entries[i] && front[j] == entries[j]);
            }
        }
        lemma_body_list_exists(front, node);
        let list = body_list(front, node);
        assert forall|x: int| 0 <= x < list.len() implies 0 <= #[trigger] list[x] < at && entries[list[x]]
            == front[list[x]] && entries[list[x]].node == node by {
            assert(list.contains(list[x]));
        }
        assert(sorted_by_attribute(entries, list)) by {
            assert forall|x: int, y: int| 0 <= x < y < list.len() implies lex_less(
                entries[#[trigger] list[x]].attribute@,
                entries[#[trigger] list[y]].attribute@,
            ) by {
                assert(entries[list[x]] == front[list[x]]);
                assert(entries[list[y]] == front[list[y]]);
            }
        }
        if entries[at].node == node {
            let attribute = entries[at].attribute@;
            assert forall|x: int| 0 <= x < list.len() implies entries[#[trigger] list[x]].attribute@
                != attribute by {
                assert(entries[list[x]].node == entries[at].node);
            }
            let place = lemma_place(entries, list, attribute);
            let more = list.insert(place, at);
            assert forall|x: int| 0 <= x < more.len() implies #[trigger] more[x] == (if x < place {
                list[x]
            } else if x == place {
                at
            } else {
                list[x - 1]
            }) by {}
            assert forall|i: int| #[trigger] more.contains(i) <==> 0 <= i < entries.len()
                && entries[i].node == node by {
                if more.contains(i) {
                    let x = choose|x: int| 0 <= x < more.len() && more[x] == i;
                    assert(more[x] == i);
                }
                if 0 <= i < entries.len() && entries[i].node == node {
                    if i == at {
                        assert(more[place] == i);
                    } else {
                        assert(front[i] == entries[i]);
                        assert(list.contains(i));
                        let x = choose|x: int| 0 <= x < list.len() && list[x] == i;
                        if x < place {
                            assert(more[x] == i);
                        } else {
                            assert(more[x + 1] == i);
                        }
                    }
                }
            }
            assert forall|x: int, y: int| 0 <= x < y < more.len() implies lex_less(
                entries[#[trigger] more[x]].attribute@,
                entries[#[trigger] more[y]].attribute@,
            ) by {
                if y < place {
                    assert(more[x] == list[x] && more[y] == list[y]);
                } else if y == place {
                    assert(more[x] == list[x]);
                } else if x < place {
                    assert(more[x] == list[x] && more[y] == list[y - 1]);
                } else if x == place {
                    assert(more[y] == list[y - 1]);
                } else {
                    assert(more[x] == list[x - 1] && more[y] == list[y - 1]);
                }
            }
            assert(is_body_list(entries, node, more));
        } else {
            assert forall|i: int| #[trigger] list.contains(i) <==> 0 <= i < entries.len()
                && entries[i].node == node by {
                if 0 <= i < at {
                    assert(front[i] == entries[i]);
                }
            }
            assert(is_body_list(entries, node, list));
        }
    }
}

/// The bodies of `node`, sorted by attribute.
pub(crate) fn sorted_bodies(entries: &Vec<SubgraphEntry>, node: u32) -> (list: Vec<usize>)
    requires
        entries_distinct(entries@),
    ensures
        crate::digraph::ints(list@) == body_list(entries@, node),
        forall|x: int|
            0 <= x < list@.len() ==> #[trigger] list@[x] < entries@.len()
                && entries@[list@[x] as int].node == node,
{
    let mut list: Vec<usize> = Vec::new();
    let mut at: usize = 0;
    while at < entries.len()
        invariant
            at <= entries@.len(),
            entries_distinct(entries@),
            forall|x: int|
                0 <= x < list@.len() ==> #[trigger] list@[x] < at && entries@[list@[x] as int].node
                    == node,
            forall|i: int|
                0 <= i < at && (#[trigger] entries@[i]).node == node ==> list@.contains(
                    i as usize,
                ),
            forall|x: int, y: int|
                0 <= x < y < list@.len() ==> lex_less(
                    entries@[(#[trigger] list@[x]) as int].attribute@,
                    entries@[(#[trigger] list@[y]) as int].attribute@,
                ),
        decreases entries@.len() - at,
    {
        if entries[at].node == node {
            let mut place: usize = 0;
            while place < list.len() && text_less(
                entries[list[place]].attribute.as_str(),
                entries[at].attribute.as_str(),
            )
                invariant
                    at < entries@.len(),
                    place <= list@.len(),
                    forall|x: int| 0 <= x < list@.len() ==> #[trigger] list@[x] < at,
                    forall|x: int|
                        0 <= x < place ==> lex_less(
                            entries@[(#[trigger] list@[x]) as int].attribute@,
                            entries@[at as int].attribute@,
                        ),
                decreases list@.len() - place,
            {
                place = place + 1;
            }
            let ghost before = list@;
            list.insert(place, at);
            proof {
                let p = place as int;
                assert forall|x: int| 0 <= x < list@.len() implies #[trigger] list@[x] == (if x < p {
                    before[x]
                } else if x == p {
                    at
                } else {
                    before[x - 1]
                }) by {}
                assert forall|i: int|
                    0 <= i < at + 1 && (#[trigger] entries@[i]).node == node implies list@.contains(
                    i as usize,
                ) by {
                    if i == at {
                        assert(list@[p] == at);
                    } else {
                        let x = choose|x: int| 0 <= x < before.len() && before[x] == i as usize;
                        let y = if x < p {
                            x
                        } else {
                            x + 1
                        };
                        assert(list@[y] == i as usize);
                    }
                }
                assert forall|x: int|
                    p <= x < before.len() implies lex_less(
                    entries@[at as int].attribute@,
                    entries@[(#[trigger] before[x]) as int].attribute@,
                ) by {
                    let first = before[p] as int;
                    lemma_lex_total(entries@[first].attribute@, entries@[at as int].attribute@);
                    assert(entries@[first].node == node);
                    if x > p {
                        lemma_lex_transitive(
                            entries@[at as int].attribute@,
                            entries@[first].attribute@,
                            entries@[before[x] as int].attribute@,
                        );
                    }
                }
                assert forall|x: int, y: int| 0 <= x < y < list@.len() implies lex_less(
                    entries@[(#[trigger] list@[x]) as int].attribute@,
                    entries@[(#[trigger] list@[y]) as int].attribute@,
                ) by {
                    if y < p {
                        assert(list@[x] == before[x] && list@[y] == before[y]);
                    } else if y == p {
                        assert(list@[x] == before[x]);
                    } else if x < p {
                        assert(list@[x] == before[x] && list@[y] == before[y - 1]);
                    } else if x == p {
                        assert(list@[y] == before[y - 1]);
                    } else {
                        assert(list@[x] == before[x - 1] && list@[y] == before[y - 1]);
                    }
                }
            }
        }
        at = at + 1;
    }
    proof {
        let found = crate::digraph::ints(list@);
        assert forall|i: int| #[trigger] found.contains(i) <==> 0 <= i < entries@.len()
            && entries@[i].node == node by {
            if found.contains(i) {
                let x = choose|x: int| 0 <= x < found.len() && found[x] == i;
                assert(list@[x] == i);
            }
            if 0 <= i < entries@.len() && entries@[i].node == node {
                let x = choose|x: int| 0 <= x < list@.len() && list@[x] == i as usize;
                assert(found[x] == i);
            }
        }
        assert forall|x: int, y: int| 0 <= x < y < found.len() implies lex_less(
            entries@[#[trigger] found[x]].attribute@,
            entries@[#[trigger] found[y]].attribute@,
        ) by {
            assert(found[x] == list@[x] && found[y] == list@[y]);
        }
        lemma_body_list_unique(entries@, node, found);
    }
    list
}

} // verus!
