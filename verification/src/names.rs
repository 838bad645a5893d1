//! Sets of names that can be copied.

use vstd::hash_set::StringHashSet;
use vstd::prelude::*;

use crate::text::same_text;

verus! {

/// A set of names; the list holds each of them once.
pub struct NameSet {
    index: StringHashSet,
    list: Vec<String>,
}

impl View for NameSet {
    type V = Set<Seq<char>>;

    closed spec fn view(&self) -> Set<Seq<char>> {
        self.index@
    }
}

impl NameSet {
    pub closed spec fn wf(&self) -> bool {
        &&& forall|name: Seq<char>| #[trigger]
            self.index@.contains(name) <==> exists|i: int|
                0 <= i < self.list@.len() && (#[trigger] self.list@[i])@ == name
        &&& forall|i: int, j: int|
            0 <= i < j < self.list@.len() ==> (#[trigger] self.list@[i])@ != (
            #[trigger] self.list@[j])@
    }

    pub fn new() -> (set: Self)
        ensures
            set.wf(),
            set@ == Set::<Seq<char>>::empty(),
    {
        NameSet { index: StringHashSet::new(), list: Vec::new() }
    }

    pub fn contains(&self, name: &str) -> (present: bool)
        requires
            self.wf(),
        ensures
            present == self@.contains(name@),
    {
        self.index.contains(name)
    }

    pub fn insert(&mut self, name: &str)
        requires
            old(self).wf(),
        ensures
            final(self).wf(),
            final(self)@ == old(self)@.insert(name@),
    {
        if !self.index.contains(name) {
            let ghost before = *self;
            self.index.insert(name.to_owned());
            self.list.push(name.to_owned());
            proof {
                assert forall|x: Seq<char>| #[trigger] self.index@.contains(x) <==> exists|i: int|
                    0 <= i < self.list@.len() && (#[trigger] self.list@[i])@ == x by {
                    if before.index@.contains(x) {
                        let i = choose|i: int|
                            0 <= i < before.list@.len() && (#[trigger] before.list@[i])@ == x;
                        assert(self.list@[i]@ == x);
                    }
                    if x == name@ {
                        assert(self.list@[before.list@.len() as int]@ == x);
                    }
                    if exists|i: int| 0 <= i < self.list@.len() && (#[trigger] self.list@[i])@ == x {
                        let i = choose|i: int|
                            0 <= i < self.list@.len() && (#[trigger] self.list@[i])@ == x;
                        if i < before.list@.len() {
                            assert(before.list@[i]@ == x);
                        }
                    }
                }
                assert forall|i: int, j: int| 0 <= i < j < self.list@.len() implies (
                #[trigger] self.list@[i])@ != (#[trigger] self.list@[j])@ by {
                    assert(before.list@[i] == self.list@[i]);
                    if j < before.list@.len() {
                        assert(before.list@[j] == self.list@[j]);
                    }
                }
            }
        }
        proof {
            assert(self@ =~= old(self)@.insert(name@));
        }
    }

    pub fn remove(&mut self, name: &str)
        requires
            old(self).wf(),
        ensures
            final(self).wf(),
            final(self)@ == old(self)@.remove(name@),
    {
        let ghost before = *self;
        if self.index.contains(name) {
            let mut at: usize = 0;
            while at < self.list.len() && !same_text(self.list[at].as_str(), name)
                invariant
                    at <= self.list@.len(),
                    *self == before,
                    forall|i: int| 0 <= i < at ==> (#[trigger] self.list@[i])@ != name@,
                decreases self.list@.len() - at,
            {
                at = at + 1;
            }
            proof {
                let i = choose|i: int|
                    0 <= i < before.list@.len() && (#[trigger] before.list@[i])@ == name@;
                assert(before.list@[i]@ == name@);
                assert(at < before.list@.len());
            }
            self.list.remove(at);
            self.index.remove(name);
            proof {
                let back = |i: int|
                    if i < at {
                        i
                    } else {
                        i + 1
                    };
                assert forall|i: int| 0 <= i < self.list@.len() implies #[trigger] self.list@[i]
                    == before.list@[back(i)] by {}
                assert forall|x: Seq<char>| #[trigger] self.index@.contains(x) <==> exists|i: int|
                    0 <= i < self.list@.len() && (#[trigger] self.list@[i])@ == x by {
                    if self.index@.contains(x) {
                        let i = choose|i: int|
                            0 <= i < before.list@.len() && (#[trigger] before.list@[i])@ == x;
                        let j = if i < at {
                            i
                        } else {
                            i - 1
                        };
                        assert(self.list@[j] == before.list@[i]);
                    }
                    if exists|i: int| 0 <= i < self.list@.len() && (#[trigger] self.list@[i])@ == x {
                        let i = choose|i: int|
                            0 <= i < self.list@.len() && (#[trigger] self.list@[i])@ == x;
                        assert(before.list@[back(i)]@ == x);
                        assert(before.list@[at as int]@ == name@);
                    }
                }
                assert forall|i: int, j: int| 0 <= i < j < self.list@.len() implies (
                #[trigger] self.list@[i])@ != (#[trigger] self.list@[j])@ by {
                    assert(self.list@[i] == before.list@[back(i)]);
                    assert(self.list@[j] == before.list@[back(j)]);
                }
            }
        }
        proof {
            assert(self@ =~= before@.remove(name@));
        }
    }

    /// Another set with the same names.
    pub fn copy(&self) -> (set: Self)
        requires
            self.wf(),
        ensures
            set.wf(),
            set@ == self@,
    {
        let mut set = NameSet::new();
        let mut at: usize = 0;
        while at < self.list.len()
            invariant
                at <= self.list@.len(),
                self.wf(),
                set.wf(),
                forall|x: Seq<char>| #[trigger]
                    set@.contains(x) <==> exists|i: int|
                        0 <= i < at && (#[trigger] self.list@[i])@ == x,
            decreases self.list@.len() - at,
        {
            let ghost before = set@;
            set.insert(self.list[at].as_str());
            proof {
                assert forall|x: Seq<char>| #[trigger] set@.contains(x) <==> exists|i: int|
                    0 <= i < at + 1 && (#[trigger] self.list@[i])@ == x by {
                    if before.contains(x) {
                        let i = choose|i: int| 0 <= i < at && (#[trigger] self.list@[i])@ == x;
                        assert(self.list@[i]@ == x);
                    }
                    if x == self.list@[at as int]@ {
                        assert(self.list@[at as int]@ == x);
                    }
                }
            }
            at = at + 1;
        }
        proof {
            assert(set@ =~= self@);
        }
        set
    }
}

} // verus!
