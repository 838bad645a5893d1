//! The initializers that are visible by name, in a form that can be copied.

use vstd::hash_map::StringHashMap;
use vstd::prelude::*;

use crate::engine::{InitData, InitModel};
use crate::names::NameSet;

verus! {

/// Initializers by name.
pub struct InitScope {
    index: StringHashMap<usize>,
    list: Vec<(String, InitData)>,
}

impl View for InitScope {
    type V = Map<Seq<char>, InitModel>;

    closed spec fn view(&self) -> Map<Seq<char>, InitModel> {
        Map::new(
            |name: Seq<char>| self.index@.contains_key(name),
            |name: Seq<char>| self.list@[self.index@[name] as int].1@,
        )
    }
}

impl InitScope {
    pub closed spec fn wf(&self) -> bool {
        &&& forall|i: int|
            0 <= i < self.list@.len() ==> self.index@.contains_key((#[trigger] self.list@[i]).0@)
                && self.index@[self.list@[i].0@] == i
        &&& forall|name: Seq<char>| #[trigger]
            self.index@.contains_key(name) ==> self.index@[name] < self.list@.len()
                && self.list@[self.index@[name] as int].0@ == name
    }

    pub fn new() -> (scope: Self)
        ensures
            scope.wf(),
            scope@ == Map::<Seq<char>, InitModel>::empty(),
    {
        let scope = InitScope { index: StringHashMap::new(), list: Vec::new() };
        proof {
            assert(scope@ =~= Map::<Seq<char>, InitModel>::empty());
        }
        scope
    }

    pub fn get(&self, name: &str) -> (init: Option<&InitData>)
        requires
            self.wf(),
        ensures
            match init {
                Some(init) => self@.contains_key(name@) && init@ == self@[name@],
                None => !self@.contains_key(name@),
            },
    {
        match self.index.get(name) {
            Some(at) => Some(&self.list[*at].1),
            None => None,
        }
    }

    pub fn insert(&mut self, name: &str, init: InitData)
        requires
            old(self).wf(),
        ensures
            final(self).wf(),
            final(self)@ == old(self)@.insert(name@, init@),
    {
        let ghost before = *self;
        let known: Option<usize> = match self.index.get(name) {
            Some(at) => Some(*at),
            None => None,
        };
        match known {
            Some(at) => {
                self.list.set(at, (name.to_owned(), init));
                proof {
                    assert forall|i: int| 0 <= i < self.list@.len() implies self.index@.contains_key(
                        (#[trigger] self.list@[i]).0@,
                    ) && self.index@[self.list@[i].0@] == i by {
                        if i != at {
                            assert(self.list@[i] == before.list@[i]);
                        }
                    }
                    assert forall|x: Seq<char>| #[trigger] self.index@.contains_key(x) implies self.index@[x]
                        < self.list@.len() && self.list@[self.index@[x] as int].0@ == x by {
                        assert(before.index@.contains_key(x));
                    }
                }
            },
            None => {
                let at: usize = self.list.len();
                self.list.push((name.to_owned(), init));
                self.index.insert(name.to_owned(), at);
                proof {
                    assert forall|i: int| 0 <= i < self.list@.len() implies self.index@.contains_key(
                        (#[trigger] self.list@[i]).0@,
                    ) && self.index@[self.list@[i].0@] == i by {
                        if i < before.list@.len() {
                            assert(self.list@[i] == before.list@[i]);
                            assert(before.index@.contains_key(before.list@[i].0@));
                        }
                    }
                    assert forall|x: Seq<char>| #[trigger] self.index@.contains_key(x) implies self.index@[x]
                        < self.list@.len() && self.list@[self.index@[x] as int].0@ == x by {
                        if x != name@ {
                            assert(before.index@.contains_key(x));
                        }
                    }
                }
            },
        }
        proof {
            assert forall|x: Seq<char>| before@.contains_key(x) && x != name@ implies #[trigger] self@[x]
                == before@[x] by {
                assert(before.index@.contains_key(x));
            }
            assert(self@ =~= before@.insert(name@, init@));
        }
    }

    /// Another scope with the same initializers, sharing their bytes.
    pub fn copy(&self) -> (scope: Self)
        requires
            self.wf(),
        ensures
            scope.wf(),
            scope@ == self@,
    {
        let mut scope = InitScope::new();
        let mut at: usize = 0;
        while at < self.list.len()
            invariant
                at <= self.list@.len(),
                self.wf(),
                scope.wf(),
                forall|x: Seq<char>| #[trigger]
                    scope@.contains_key(x) <==> self.index@.contains_key(x) && self.index@[x] < at,
                forall|x: Seq<char>| #[trigger] scope@.contains_key(x) ==> scope@[x] == self@[x],
            decreases self.list@.len() - at,
        {
            let init: InitData = self.list[at].1.share();
            let ghost before = scope@;
            let ghost name = self.list@[at as int].0@;
            proof {
                assert(self.index@.contains_key(name) && self.index@[name] == at);
            }
            scope.insert(self.list[at].0.as_str(), init);
            proof {
                assert forall|x: Seq<char>| #[trigger] scope@.contains_key(x) <==> self.index@.contains_key(
                    x,
                ) && self.index@[x] < at + 1 by {
                    if self.index@.contains_key(x) && self.index@[x] == at {
                        assert(self.list@[self.index@[x] as int].0@ == x);
                    }
                    assert(before.contains_key(x) <==> self.index@.contains_key(x) && self.index@[x]
                        < at);
                }
            }
            at = at + 1;
        }
        proof {
            assert forall|x: Seq<char>| self@.contains_key(x) implies #[trigger] scope@.contains_key(x) by {
                assert(self.index@.contains_key(x));
            }
            assert(scope@ =~= self@);
        }
        scope
    }

    /// The names of the initializers.
    pub fn names(&self) -> (names: NameSet)
        requires
            self.wf(),
        ensures
            names.wf(),
            names@ == self@.dom(),
    {
        let mut names = NameSet::new();
        let mut at: usize = 0;
        while at < self.list.len()
            invariant
                at <= self.list@.len(),
                self.wf(),
                names.wf(),
                forall|x: Seq<char>| #[trigger]
                    names@.contains(x) <==> self.index@.contains_key(x) && self.index@[x] < at,
            decreases self.list@.len() - at,
        {
            let ghost name = self.list@[at as int].0@;
            let ghost before = names@;
            proof {
                assert(self.index@.contains_key(name) && self.index@[name] == at);
            }
            names.insert(self.list[at].0.as_str());
            proof {
                assert forall|x: Seq<char>| #[trigger] names@.contains(x) <==> self.index@.contains_key(
                    x,
                ) && self.index@[x] < at + 1 by {
                    if self.index@.contains_key(x) && self.index@[x] == at {
                        assert(self.list@[self.index@[x] as int].0@ == x);
                    }
                    assert(before.contains(x) <==> self.index@.contains_key(x) && self.index@[x]
                        < at);
                }
            }
            at = at + 1;
        }
        proof {
            assert(names@ =~= self@.dom());
        }
        names
    }
}

} // verus!
