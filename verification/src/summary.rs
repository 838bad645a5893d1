//! The digest of a session: claims, paths, memory movement and time.

use vstd::hash_map::StringHashMap;
use vstd::prelude::*;

use crate::declined::{declined_below, refused_nodes, DeclinedTable};
use crate::names::NameSet;
use crate::rejection::Rejection;
use crate::tables::{time_added, TimeTable};
use crate::text::join3;
use crate::trace::{CacheState, ComputePath};

verus! {

/// The shape keys that were seen, by path and partition.
pub struct SeenKeys {
    map: StringHashMap<NameSet>,
}

impl View for SeenKeys {
    type V = Map<Seq<char>, Set<Seq<char>>>;

    closed spec fn view(&self) -> Map<Seq<char>, Set<Seq<char>>> {
        self.map@.map_values(|set: NameSet| set@)
    }
}

/// `key` was seen in `scope`.
pub open spec fn key_seen(
    seen: Map<Seq<char>, Set<Seq<char>>>,
    scope: Seq<char>,
    key: Seq<char>,
) -> bool {
    seen.contains_key(scope) && seen[scope].contains(key)
}

/// With one more key.
pub open spec fn with_key(
    seen: Map<Seq<char>, Set<Seq<char>>>,
    scope: Seq<char>,
    key: Seq<char>,
) -> Map<Seq<char>, Set<Seq<char>>> {
    seen.insert(
        scope,
        (if seen.contains_key(scope) {
            seen[scope]
        } else {
            Set::empty()
        }).insert(key),
    )
}

impl SeenKeys {
    pub closed spec fn wf(&self) -> bool {
        forall|scope: Seq<char>| #[trigger]
            self.map@.contains_key(scope) ==> self.map@[scope].wf()
    }

    pub fn new() -> (seen: Self)
        ensures
            seen.wf(),
            seen@ == Map::<Seq<char>, Set<Seq<char>>>::empty(),
    {
        let seen = SeenKeys { map: StringHashMap::new() };
        assert(seen@ =~= Map::<Seq<char>, Set<Seq<char>>>::empty());
        seen
    }

    pub fn contains(&self, scope: &str, key: &str) -> (seen: bool)
        requires
            self.wf(),
        ensures
            seen == key_seen(self@, scope@, key@),
    {
        match self.map.get(scope) {
            Some(set) => set.contains(key),
            None => false,
        }
    }

    pub fn insert(&mut self, scope: &str, key: &str)
        requires
            old(self).wf(),
        ensures
            final(self).wf(),
            final(self)@ == with_key(old(self)@, scope@, key@),
    {
        let ghost before = self@;
        let mut set: NameSet = match self.map.get(scope) {
            Some(set) => set.copy(),
            None => NameSet::new(),
        };
        set.insert(key);
        self.map.insert(scope.to_owned(), set);
        proof {
            assert(self@ =~= with_key(before, scope@, key@));
        }
    }
}

/// Everything that is counted.
pub struct Summary {
    pub getcap_calls: u64,
    pub claimed_nodes: u64,
    pub total_nodes: u64,
    pub fused_subgraphs: u64,
    pub declined: DeclinedTable,
    pub decode_runs: u64,
    pub prefill_runs: u64,
    pub general_runs: u64,
    pub eager_runs: u64,
    pub cache_hit: u64,
    pub cache_miss: u64,
    pub cache_retrace: u64,
    pub seen: SeenKeys,
    pub managed_wrap_count: u64,
    pub managed_wrap_bytes: u64,
    pub managed_wrap_aligned: u64,
    pub copy_wrap_count: u64,
    pub copy_wrap_bytes: u64,
    pub delta_copyout_count: u64,
    pub delta_copyout_bytes: u64,
    pub full_copyout_count: u64,
    pub full_copyout_bytes: u64,
    pub phases: TimeTable,
    /// A bound on every counter.
    pub used: u64,
}

/// What was counted.
#[verifier::ext_equal]
pub ghost struct Digest {
    pub getcap_calls: int,
    pub claimed_nodes: int,
    pub total_nodes: int,
    pub fused_subgraphs: int,
    pub declined: Map<Seq<char>, (u64, Seq<char>)>,
    pub runs: Map<ComputePath, int>,
    pub caches: Map<CacheState, int>,
    pub seen: Map<Seq<char>, Set<Seq<char>>>,
    pub managed_wraps: int,
    pub managed_bytes: int,
    pub managed_aligned: int,
    pub copy_wraps: int,
    pub copy_bytes: int,
    pub delta_copies: int,
    pub delta_bytes: int,
    pub full_copies: int,
    pub full_bytes: int,
    pub phases: Map<Seq<char>, (u64, u64)>,
}

/// The four run counters by path.
pub open spec fn run_counts(decode: int, prefill: int, general: int, eager: int) -> Map<
    ComputePath,
    int,
> {
    Map::new(
        |path: ComputePath| true,
        |path: ComputePath|
            match path {
                ComputePath::Decode => decode,
                ComputePath::Prefill => prefill,
                ComputePath::General => general,
                ComputePath::Eager => eager,
            },
    )
}

/// The three cache counters by state; what has no cache is not counted.
pub open spec fn cache_counts(hit: int, miss: int, retrace: int) -> Map<CacheState, int> {
    Map::new(
        |state: CacheState| true,
        |state: CacheState|
            match state {
                CacheState::Hit => hit,
                CacheState::Miss => miss,
                CacheState::Retrace => retrace,
                CacheState::Na => 0,
            },
    )
}

impl View for Summary {
    type V = Digest;

    open spec fn view(&self) -> Digest {
        Digest {
            getcap_calls: self.getcap_calls as int,
            claimed_nodes: self.claimed_nodes as int,
            total_nodes: self.total_nodes as int,
            fused_subgraphs: self.fused_subgraphs as int,
            declined: self.declined@,
            runs: run_counts(
                self.decode_runs as int,
                self.prefill_runs as int,
                self.general_runs as int,
                self.eager_runs as int,
            ),
            caches: cache_counts(
                self.cache_hit as int,
                self.cache_miss as int,
                self.cache_retrace as int,
            ),
            seen: self.seen@,
            managed_wraps: self.managed_wrap_count as int,
            managed_bytes: self.managed_wrap_bytes as int,
            managed_aligned: self.managed_wrap_aligned as int,
            copy_wraps: self.copy_wrap_count as int,
            copy_bytes: self.copy_wrap_bytes as int,
            delta_copies: self.delta_copyout_count as int,
            delta_bytes: self.delta_copyout_bytes as int,
            full_copies: self.full_copyout_count as int,
            full_bytes: self.full_copyout_bytes as int,
            phases: self.phases@,
        }
    }
}

/// Nothing was counted.
pub open spec fn empty_digest() -> Digest {
    Digest {
        getcap_calls: 0,
        claimed_nodes: 0,
        total_nodes: 0,
        fused_subgraphs: 0,
        declined: Map::empty(),
        runs: run_counts(0, 0, 0, 0),
        caches: cache_counts(0, 0, 0),
        seen: Map::empty(),
        managed_wraps: 0,
        managed_bytes: 0,
        managed_aligned: 0,
        copy_wraps: 0,
        copy_bytes: 0,
        delta_copies: 0,
        delta_bytes: 0,
        full_copies: 0,
        full_bytes: 0,
        phases: Map::empty(),
    }
}

/// The scope of shape keys: the path and the partition.
pub open spec fn scope_name(path: ComputePath, partition: Seq<char>) -> Seq<char> {
    path.tag() + ":"@ + partition
}

/// How the cache fared, once the shape key is looked at: a replay under a key that was never seen
/// in its scope was traced again.
pub open spec fn resolved(
    seen: Map<Seq<char>, Set<Seq<char>>>,
    cache: CacheState,
    scope: Seq<char>,
    key: Seq<char>,
) -> CacheState {
    if cache == CacheState::Hit && key.len() > 0 && !key_seen(seen, scope, key) {
        CacheState::Retrace
    } else {
        cache
    }
}

/// The digest after a computation.
pub open spec fn after_compute(
    digest: Digest,
    path: ComputePath,
    cache: CacheState,
    partition: Seq<char>,
    key: Seq<char>,
) -> Digest {
    let scope = scope_name(path, partition);
    let state = resolved(digest.seen, cache, scope, key);
    Digest {
        runs: digest.runs.insert(path, digest.runs[path] + 1),
        caches: if state == CacheState::Na {
            digest.caches
        } else {
            digest.caches.insert(state, digest.caches[state] + 1)
        },
        seen: if key.len() > 0 {
            with_key(digest.seen, scope, key)
        } else {
            digest.seen
        },
        ..digest
    }
}

/// The digest after a claim.
pub open spec fn after_claim(
    digest: Digest,
    claimed: usize,
    total: usize,
    subgraphs: usize,
    rejected: Seq<Rejection>,
) -> Digest {
    Digest {
        getcap_calls: digest.getcap_calls + 1,
        claimed_nodes: digest.claimed_nodes + claimed,
        total_nodes: digest.total_nodes + total,
        fused_subgraphs: digest.fused_subgraphs + subgraphs,
        declined: declined_below(digest.declined, rejected, rejected.len() as int),
        ..digest
    }
}

/// The digest after bytes were copied out.
pub open spec fn after_copyout(digest: Digest, delta: bool, bytes: u64, micros: u64) -> Digest {
    let moved = if delta {
        Digest {
            delta_copies: digest.delta_copies + 1,
            delta_bytes: digest.delta_bytes + bytes,
            ..digest
        }
    } else {
        Digest {
            full_copies: digest.full_copies + 1,
            full_bytes: digest.full_bytes + bytes,
            ..digest
        }
    };
    Digest { phases: time_added(digest.phases, "copy"@, micros), ..moved }
}

/// What a claim adds to the bound.
pub open spec fn claim_cost(
    claimed: usize,
    total: usize,
    subgraphs: usize,
    rejected: Seq<Rejection>,
) -> int {
    1 + claimed + total + subgraphs + refused_nodes(rejected, rejected.len() as int)
}

impl Summary {
    pub open spec fn wf(&self) -> bool {
        &&& self.declined.wf()
        &&& self.seen.wf()
        &&& self.phases.wf()
        &&& self.getcap_calls <= self.used
        &&& self.claimed_nodes <= self.used
        &&& self.total_nodes <= self.used
        &&& self.fused_subgraphs <= self.used
        &&& self.declined.total <= self.used
        &&& self.decode_runs <= self.used
        &&& self.prefill_runs <= self.used
        &&& self.general_runs <= self.used
        &&& self.eager_runs <= self.used
        &&& self.cache_hit <= self.used
        &&& self.cache_miss <= self.used
        &&& self.cache_retrace <= self.used
        &&& self.managed_wrap_count <= self.used
        &&& self.managed_wrap_bytes <= self.used
        &&& self.managed_wrap_aligned <= self.used
        &&& self.copy_wrap_count <= self.used
        &&& self.copy_wrap_bytes <= self.used
        &&& self.delta_copyout_count <= self.used
        &&& self.delta_copyout_bytes <= self.used
        &&& self.full_copyout_count <= self.used
        &&& self.full_copyout_bytes <= self.used
        &&& self.phases.total <= self.used
        &&& self.phases.calls <= self.used
    }

    /// Counters can grow by `amount` more.
    pub open spec fn room_for(&self, amount: int) -> bool {
        self.used + amount <= u64::MAX
    }

    /// Whether counters can grow by `amount` more.
    pub fn has_room(&self, amount: u64) -> (room: bool)
        ensures
            room == self.room_for(amount as int),
    {
        amount <= u64::MAX - self.used
    }

    pub fn new() -> (summary: Self)
        ensures
            summary.wf(),
            summary.used == 0,
            summary@ == empty_digest(),
    {
        Summary {
            getcap_calls: 0,
            claimed_nodes: 0,
            total_nodes: 0,
            fused_subgraphs: 0,
            declined: DeclinedTable::new(),
            decode_runs: 0,
            prefill_runs: 0,
            general_runs: 0,
            eager_runs: 0,
            cache_hit: 0,
            cache_miss: 0,
            cache_retrace: 0,
            seen: SeenKeys::new(),
            managed_wrap_count: 0,
            managed_wrap_bytes: 0,
            managed_wrap_aligned: 0,
            copy_wrap_count: 0,
            copy_wrap_bytes: 0,
            delta_copyout_count: 0,
            delta_copyout_bytes: 0,
            full_copyout_count: 0,
            full_copyout_bytes: 0,
            phases: TimeTable::new(),
            used: 0,
        }
    }

    /// Counts a claim.
    pub fn record_claim(
        &mut self,
        claimed: usize,
        total: usize,
        subgraphs: usize,
        rejected: &Vec<Rejection>,
    )
        requires
            old(self).wf(),
            old(self).room_for(claim_cost(claimed, total, subgraphs, rejected@)),
        ensures
            final(self).wf(),
            final(self).used == old(self).used + claim_cost(
                claimed,
                total,
                subgraphs,
                rejected@,
            ),
            final(self)@ == after_claim(old(self)@, claimed, total, subgraphs, rejected@),
    {
        let ghost before = *self;
        self.getcap_calls = self.getcap_calls + 1;
        self.claimed_nodes = self.claimed_nodes + claimed as u64;
        self.total_nodes = self.total_nodes + total as u64;
        self.fused_subgraphs = self.fused_subgraphs + subgraphs as u64;
        let refused: u64 = self.declined.total;
        self.declined.decline_all(rejected);
        let more: u64 = self.declined.total - refused;
        self.used = self.used + 1 + claimed as u64 + total as u64 + subgraphs as u64 + more;
        proof {
            assert(self@ =~= after_claim(before@, claimed, total, subgraphs, rejected@));
        }
    }

    /// Counts a computation and tells how the cache fared.
    pub fn record_compute(
        &mut self,
        path: ComputePath,
        cache: CacheState,
        partition: &str,
        key: &str,
    ) -> (state: CacheState)
        requires
            old(self).wf(),
            old(self).room_for(1),
        ensures
            final(self).wf(),
            final(self).used == old(self).used + 1,
            state == resolved(old(self)@.seen, cache, scope_name(path, partition@), key@),
            final(self)@ == after_compute(old(self)@, path, cache, partition@, key@),
    {
        let ghost before = *self;
        let scope: String = join3(path.as_str(), ":", partition);
        match path {
            ComputePath::Decode => {
                self.decode_runs = self.decode_runs + 1;
            },
            ComputePath::Prefill => {
                self.prefill_runs = self.prefill_runs + 1;
            },
            ComputePath::General => {
                self.general_runs = self.general_runs + 1;
            },
            ComputePath::Eager => {
                self.eager_runs = self.eager_runs + 1;
            },
        }
        let keyed: bool = !key.is_empty();
        let state: CacheState = if cache == CacheState::Hit && keyed && !self.seen.contains(
            scope.as_str(),
            key,
        ) {
            CacheState::Retrace
        } else {
            cache
        };
        if keyed {
            self.seen.insert(scope.as_str(), key);
        }
        match state {
            CacheState::Hit => {
                self.cache_hit = self.cache_hit + 1;
            },
            CacheState::Miss => {
                self.cache_miss = self.cache_miss + 1;
            },
            CacheState::Retrace => {
                self.cache_retrace = self.cache_retrace + 1;
            },
            CacheState::Na => {},
        }
        self.used = self.used + 1;
        proof {
            let goal = after_compute(before@, path, cache, partition@, key@);
            assert(self@.runs =~= goal.runs);
            assert(self@.caches =~= goal.caches);
            assert(self@ =~= goal);
        }
        state
    }

    /// Counts a buffer that was wrapped without a copy if it is aligned.
    pub fn record_managed_wrap(&mut self, bytes: u64, aligned: bool)
        requires
            old(self).wf(),
            old(self).room_for(bytes + 1),
        ensures
            final(self).wf(),
            final(self).used == old(self).used + bytes + 1,
            final(self)@ == (Digest {
                managed_wraps: old(self)@.managed_wraps + 1,
                managed_bytes: old(self)@.managed_bytes + bytes,
                managed_aligned: old(self)@.managed_aligned + (if aligned {
                    1int
                } else {
                    0int
                }),
                ..old(self)@
            }),
    {
        self.managed_wrap_count = self.managed_wrap_count + 1;
        self.managed_wrap_bytes = self.managed_wrap_bytes + bytes;
        if aligned {
            self.managed_wrap_aligned = self.managed_wrap_aligned + 1;
        }
        self.used = self.used + bytes + 1;
    }

    /// Counts a buffer that was copied in.
    pub fn record_copy_wrap(&mut self, bytes: u64)
        requires
            old(self).wf(),
            old(self).room_for(bytes + 1),
        ensures
            final(self).wf(),
            final(self).used == old(self).used + bytes + 1,
            final(self)@ == (Digest {
                copy_wraps: old(self)@.copy_wraps + 1,
                copy_bytes: old(self)@.copy_bytes + bytes,
                ..old(self)@
            }),
    {
        self.copy_wrap_count = self.copy_wrap_count + 1;
        self.copy_wrap_bytes = self.copy_wrap_bytes + bytes;
        self.used = self.used + bytes + 1;
    }

    /// Counts time under the name of a phase.
    pub fn record_phase(&mut self, phase: &str, micros: u64)
        requires
            old(self).wf(),
            old(self).room_for(micros + 1),
        ensures
            final(self).wf(),
            final(self).used == old(self).used + micros + 1,
            final(self)@ == (Digest {
                phases: time_added(old(self)@.phases, phase@, micros),
                ..old(self)@
            }),
    {
        self.phases.record(phase, micros);
        self.used = self.used + micros + 1;
    }

    /// Counts a buffer that was copied out, whole or only where it changed.
    pub fn record_copyout(&mut self, delta: bool, bytes: u64, micros: u64)
        requires
            old(self).wf(),
            old(self).room_for(bytes + micros + 1),
        ensures
            final(self).wf(),
            final(self).used == old(self).used + bytes + micros + 1,
            final(self)@ == after_copyout(old(self)@, delta, bytes, micros),
    {
        if delta {
            self.delta_copyout_count = self.delta_copyout_count + 1;
            self.delta_copyout_bytes = self.delta_copyout_bytes + bytes;
        } else {
            self.full_copyout_count = self.full_copyout_count + 1;
            self.full_copyout_bytes = self.full_copyout_bytes + bytes;
        }
        self.phases.record("copy", micros);
        self.used = self.used + bytes + micros + 1;
    }

    /// Nothing was claimed or computed.
    pub open spec fn blank(&self) -> bool {
        self.getcap_calls == 0 && self.decode_runs == 0 && self.prefill_runs == 0
            && self.general_runs == 0 && self.eager_runs == 0
    }

    /// Whether nothing was claimed or computed.
    pub fn is_blank(&self) -> (blank: bool)
        ensures
            blank == self.blank(),
            blank <==> self.getcap_calls == 0 && self.decode_runs == 0 && self.prefill_runs == 0
                && self.general_runs == 0 && self.eager_runs == 0,
    {
        self.getcap_calls == 0 && self.decode_runs == 0 && self.prefill_runs == 0
            && self.general_runs == 0 && self.eager_runs == 0
    }
}

/// A replay counts as a hit only if its shape key was seen before on the same path and partition,
/// and it then stays a hit for that key.
pub proof fn law_hit_needs_seen_key(
    digest: Digest,
    path: ComputePath,
    partition: Seq<char>,
    key: Seq<char>,
)
    requires
        key.len() > 0,
    ensures
        ({
            let scope = scope_name(path, partition);
            let next = after_compute(digest, path, CacheState::Hit, partition, key);
            &&& resolved(digest.seen, CacheState::Hit, scope, key) == CacheState::Hit <==> key_seen(
                digest.seen,
                scope,
                key,
            )
            &&& key_seen(next.seen, scope, key)
            &&& resolved(next.seen, CacheState::Hit, scope, key) == CacheState::Hit
        }),
{
}

/// A shape key that is seen on one path and partition says nothing of another.
pub proof fn law_scopes_apart(
    digest: Digest,
    path: ComputePath,
    cache: CacheState,
    partition: Seq<char>,
    key: Seq<char>,
    scope: Seq<char>,
    other: Seq<char>,
)
    requires
        scope != scope_name(path, partition),
    ensures
        key_seen(after_compute(digest, path, cache, partition, key).seen, scope, other)
            == key_seen(digest.seen, scope, other),
{
}

/// What one computation hands in.
pub ghost struct ComputeCall {
    pub path: ComputePath,
    pub cache: CacheState,
    pub partition: Seq<char>,
    pub key: Seq<char>,
}

/// The digests of a session: it starts with nothing counted, and each step counts a computation or
/// leaves the keys alone.
pub open spec fn is_session(digests: Seq<Digest>, calls: Seq<Option<ComputeCall>>) -> bool {
    &&& digests.len() == calls.len() + 1
    &&& digests[0] == empty_digest()
    &&& forall|i: int|
        0 <= i < calls.len() ==> match #[trigger] calls[i] {
            Some(call) => digests[i + 1] == after_compute(
                digests[i],
                call.path,
                call.cache,
                call.partition,
                call.key,
            ),
            None => digests[i + 1].seen == digests[i].seen,
        }
}

/// One of the first `k` steps computed on that path and partition under that key.
pub open spec fn computed_before(
    calls: Seq<Option<ComputeCall>>,
    k: int,
    path: ComputePath,
    partition: Seq<char>,
    key: Seq<char>,
) -> bool {
    exists|i: int|
        0 <= i < k && (#[trigger] calls[i]) is Some && calls[i]->0.path == path
            && calls[i]->0.partition == partition && calls[i]->0.key == key
}

/// A scope names one path and one partition.
proof fn lemma_scope_names(left: ComputePath, a: Seq<char>, right: ComputePath, b: Seq<char>)
    ensures
        scope_name(left, a) == scope_name(right, b) <==> left == right && a == b,
{
    reveal_strlit("decode");
    reveal_strlit("prefill");
    reveal_strlit("general");
    reveal_strlit("eager");
    reveal_strlit(":");
    let x = scope_name(left, a);
    let y = scope_name(right, b);
    if x == y {
        assert(x[0] == left.tag()[0]);
        assert(y[0] == right.tag()[0]);
        assert(left == right);
        let at = left.tag().len() + 1;
        assert(a =~= x.skip(at as int));
        assert(b =~= y.skip(at as int));
    }
}

proof fn lemma_session_keys(
    digests: Seq<Digest>,
    calls: Seq<Option<ComputeCall>>,
    k: int,
    path: ComputePath,
    partition: Seq<char>,
    key: Seq<char>,
)
    requires
        is_session(digests, calls),
        0 <= k <= calls.len(),
        key.len() > 0,
    ensures
        key_seen(digests[k].seen, scope_name(path, partition), key) <==> computed_before(
            calls,
            k,
            path,
            partition,
            key,
        ),
    decreases k,
{
    if k > 0 {
        lemma_session_keys(digests, calls, k - 1, path, partition, key);
        let before = computed_before(calls, k - 1, path, partition, key);
        match calls[k - 1] {
            None => {},
            Some(call) => {
                lemma_scope_names(path, partition, call.path, call.partition);
                let same = call.path == path && call.partition == partition && call.key == key;
                assert(computed_before(calls, k, path, partition, key) <==> before || same);
            },
        }
    }
}

/// Only computations add keys.
pub proof fn law_claims_and_copies_keep_keys(
    digest: Digest,
    claimed: usize,
    total: usize,
    subgraphs: usize,
    rejected: Seq<Rejection>,
    delta: bool,
    bytes: u64,
    micros: u64,
)
    ensures
        after_claim(digest, claimed, total, subgraphs, rejected).seen == digest.seen,
        after_copyout(digest, delta, bytes, micros).seen == digest.seen,
{
}

/// Over a whole session: a replay under a key is a hit exactly if an earlier computation had the
/// same path, partition and key, and else a retrace; whatever is no replay under a key stays as it
/// was reported. A key that was seen stays seen.
pub proof fn law_hits_over_a_session(
    digests: Seq<Digest>,
    calls: Seq<Option<ComputeCall>>,
    k: int,
    later: int,
    call: ComputeCall,
)
    requires
        is_session(digests, calls),
        0 <= k <= later <= calls.len(),
    ensures
        ({
            let scope = scope_name(call.path, call.partition);
            &&& resolved(digests[k].seen, call.cache, scope, call.key) == (if call.cache
                == CacheState::Hit && call.key.len() > 0 {
                if computed_before(calls, k, call.path, call.partition, call.key) {
                    CacheState::Hit
                } else {
                    CacheState::Retrace
                }
            } else {
                call.cache
            })
            &&& call.key.len() > 0 && key_seen(digests[k].seen, scope, call.key) ==> key_seen(
                digests[later].seen,
                scope,
                call.key,
            )
        }),
{
    if call.key.len() > 0 {
        lemma_session_keys(digests, calls, k, call.path, call.partition, call.key);
        lemma_session_keys(digests, calls, later, call.path, call.partition, call.key);
    }
}

} // verus!
