//! What is recorded of a run: which path each computation took, and how the compile cache fared.

use vstd::prelude::*;

verus! {

/// Which way a node's handler went. Operators without a choice leave no mark.
pub enum PathMark {
    /// A fused kernel was used; this is its name.
    Fast(&'static str),
    /// A fused kernel exists but a composed form was used, for this reason.
    Composed(String),
}

/// The path that a computation took. They are tried in this order.
#[derive(Clone, Copy, Debug, PartialEq, Eq, Structural)]
pub enum ComputePath {
    /// Compiled without regard to shapes, for a single token.
    Decode,
    /// Compiled for the shapes of a prompt.
    Prefill,
    /// Compiled for the shapes of a graph.
    General,
    /// Translated node by node.
    Eager,
}

impl ComputePath {
    /// The tag of a path.
    pub open spec fn tag(self) -> Seq<char> {
        match self {
            ComputePath::Decode => "decode"@,
            ComputePath::Prefill => "prefill"@,
            ComputePath::General => "general"@,
            ComputePath::Eager => "eager"@,
        }
    }

    /// The stable lowercase tag of a path.
    pub fn as_str(self) -> (text: &'static str)
        ensures
            text@ == self.tag(),
            self is Decode ==> text@ == "decode"@,
            self is Prefill ==> text@ == "prefill"@,
            self is General ==> text@ == "general"@,
            self is Eager ==> text@ == "eager"@,
    {
        match self {
            ComputePath::Decode => "decode",
            ComputePath::Prefill => "prefill",
            ComputePath::General => "general",
            ComputePath::Eager => "eager",
        }
    }
}

/// How the compile cache fared.
#[derive(Clone, Copy, Debug, PartialEq, Eq, Structural)]
pub enum CacheState {
    /// A compiled closure was replayed.
    Hit,
    /// The closure was compiled for the first time.
    Miss,
    /// A shape-keyed closure was traced again because the shapes changed.
    Retrace,
    /// There is no compiled closure.
    Na,
}

impl CacheState {
    /// The tag of a state.
    pub open spec fn tag(self) -> Seq<char> {
        match self {
            CacheState::Hit => "HIT"@,
            CacheState::Miss => "MISS"@,
            CacheState::Retrace => "RETRACE"@,
            CacheState::Na => "n/a"@,
        }
    }

    pub fn as_str(self) -> (text: &'static str)
        ensures
            text@ == self.tag(),
            self is Hit ==> text@ == "HIT"@,
            self is Miss ==> text@ == "MISS"@,
            self is Retrace ==> text@ == "RETRACE"@,
            self is Na ==> text@ == "n/a"@,
    {
        match self {
            CacheState::Hit => "HIT",
            CacheState::Miss => "MISS",
            CacheState::Retrace => "RETRACE",
            CacheState::Na => "n/a",
        }
    }
}

/// Different paths have different tags, and so have different states.
pub proof fn law_tags_distinct(a: ComputePath, b: ComputePath, x: CacheState, y: CacheState)
    ensures
        a.tag() == b.tag() ==> a == b,
        x.tag() == y.tag() ==> x == y,
{
    reveal_strlit("decode");
    reveal_strlit("prefill");
    reveal_strlit("general");
    reveal_strlit("eager");
    reveal_strlit("HIT");
    reveal_strlit("MISS");
    reveal_strlit("RETRACE");
    reveal_strlit("n/a");
    if a != b {
        assert(a.tag()[0] != b.tag()[0]);
    }
    if x != y {
        assert(x.tag()[0] != y.tag()[0]);
    }
}

} // verus!
