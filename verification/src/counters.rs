//! Per-shard monotonic counters of cross-shard messages absorbed from the
//! committee owning each shard. Used to detect already-processed relays and
//! to answer catch-up queries; counts never decrease.

use vstd::prelude::*;

use crate::types::{Shard, ShardGroup};

verus! {

/// Per-shard count of cross-shard messages absorbed. A shard with no entry
/// has count zero.
#[derive(Debug, Clone)]
pub struct ForeignReceiveCounters {
    counters: Vec<(Shard, u64)>,
}

/// Count of `shard` in the entry list `s`: the value at its entry, or zero
/// if there is none.
pub open spec fn count_in(s: Seq<(Shard, u64)>, shard: u32) -> u64
    decreases s.len(),
{
    if s.len() == 0 {
        0u64
    } else if s[0].0.0 == shard {
        s[0].1
    } else {
        count_in(s.skip(1), shard)
    }
}

/// Entry keys are unique, so each shard has at most one entry.
pub open spec fn keys_unique(s: Seq<(Shard, u64)>) -> bool {
    forall|i: int, j: int| 0 <= i < j < s.len() ==> s[i].0.0 != s[j].0.0
}

/// `post` is `pre` with every shard of `group` incremented once and every
/// other shard unchanged: the effect of absorbing one relay from the
/// committee owning `group`.
pub open spec fn incremented_by(
    post: ForeignReceiveCounters,
    pre: ForeignReceiveCounters,
    group: ShardGroup,
) -> bool {
    forall|s: u32|
        #[trigger] post.count_spec(s) == if group.contains_spec(s) {
            pre.count_spec(s) + 1
        } else {
            pre.count_spec(s) as int
        }
}

impl ForeignReceiveCounters {
    /// The abstract value of the counters: the entry list itself.
    pub closed spec fn model(&self) -> Seq<(Shard, u64)> {
        self.counters@
    }

    pub open spec fn wf(&self) -> bool {
        keys_unique(self.model())
    }

    /// The count recorded for a shard; zero when the shard is unknown.
    pub open spec fn count_spec(&self, shard: u32) -> u64 {
        count_in(self.model(), shard)
    }

    pub fn new() -> (r: ForeignReceiveCounters)
        ensures
            r.wf(),
            forall|s: u32| r.count_spec(s) == 0,
    {
        ForeignReceiveCounters { counters: Vec::new() }
    }

    /// Returns the counter for the provided shard. If the count does not
    /// exist, 0 is returned.
    pub fn get_count(&self, shard: &Shard) -> (r: u64)
        requires
            self.wf(),
        ensures
            r == self.count_spec(shard.0),
    {
        let mut i: usize = 0;
        proof {
            assert(self.counters@.skip(0) =~= self.counters@);
        }
        while i < self.counters.len()
            invariant
                i <= self.counters@.len(),
                count_in(self.counters@, shard.0) == count_in(
                    self.counters@.skip(i as int),
                    shard.0,
                ),
                forall|j: int| 0 <= j < i ==> self.counters@[j].0.0 != shard.0,
            decreases self.counters@.len() - i,
        {
            if self.counters[i].0.0 == shard.0 {
                proof {
                    assert(self.counters@.skip(i as int)[0] == self.counters@[i as int]);
                }
                return self.counters[i].1;
            }
            proof {
                assert(self.counters@.skip(i as int).skip(1) =~= self.counters@.skip(
                    i as int + 1,
                ));
            }
            i = i + 1;
        }
        proof {
            assert(self.counters@.skip(i as int).len() == 0);
        }
        0
    }

    /// Increments the counter of one shard, inserting a fresh entry at count
    /// one when the shard is unknown.
    fn increment_shard(&mut self, shard: Shard)
        requires
            old(self).wf(),
            old(self).count_spec(shard.0) < u64::MAX,
        ensures
            final(self).wf(),
            final(self).count_spec(shard.0) == old(self).count_spec(shard.0) + 1,
            forall|s: u32|
                s != shard.0 ==> #[trigger] final(self).count_spec(s) == old(self).count_spec(s),
    {
        let ghost pre = self.counters@;
        let mut i: usize = 0;
        while i < self.counters.len()
            invariant
                self.counters@ == pre,
                old(self).counters@ == pre,
                keys_unique(pre),
                count_in(pre, shard.0) < u64::MAX,
                i <= pre.len(),
                forall|j: int| 0 <= j < i ==> pre[j].0.0 != shard.0,
            decreases pre.len() - i,
        {
            if self.counters[i].0.0 == shard.0 {
                let c: u64 = self.counters[i].1;
                proof {
                    lemma_count_at_index(pre, i as int);
                    assert(pre[i as int].0.0 == shard.0);
                    assert(count_in(pre, shard.0) == c);
                }
                let c1: u64 = c + 1;
                proof {
                    lemma_count_update(pre, i as int, (shard, c1));
                }
                self.counters.set(i, (shard, c1));
                return;
            }
            i = i + 1;
        }
        proof {
            lemma_count_absent(pre, shard.0);
            lemma_count_push(pre, (shard, 1u64));
        }
        self.counters.push((shard, 1));
    }

    /// Absorbs one relay from the committee owning `shard_group`: the counter
    /// of every shard in the group rises by exactly one, and no other counter
    /// changes.
    pub fn increment_group(&mut self, shard_group: ShardGroup)
        requires
            old(self).wf(),
            shard_group.wf(),
            forall|s: u32|
                shard_group.contains_spec(s) ==> #[trigger] old(self).count_spec(s) < u64::MAX,
        ensures
            final(self).wf(),
            incremented_by(*final(self), *old(self), shard_group),
    {
        let shards = shard_group.shard_iter();
        let ghost orig = *self;
        let mut i: usize = 0;
        while i < shards.len()
            invariant
                self.wf(),
                i <= shards@.len(),
                shards@.len() == shard_group.len_spec(),
                forall|j: int| 0 <= j < shards@.len() ==> shards@[j].0 == shard_group.start.0 + j,
                forall|s: u32|
                    shard_group.contains_spec(s) ==> #[trigger] orig.count_spec(s) < u64::MAX,
                forall|s: u32|
                    #[trigger] self.count_spec(s) == if shard_group.start.0 <= s
                        < shard_group.start.0 + i {
                        orig.count_spec(s) + 1
                    } else {
                        orig.count_spec(s) as int
                    },
            decreases shards@.len() - i,
        {
            proof {
                let s = shards@[i as int].0;
                assert(s == shard_group.start.0 + i);
                assert(shard_group.contains_spec(s));
                assert(orig.count_spec(s) < u64::MAX);
                assert(self.count_spec(s) == orig.count_spec(s));
            }
            self.increment_shard(shards[i]);
            i = i + 1;
        }
    }
}

impl ForeignReceiveCounters {
    /// An explicit copy with the same counts.
    pub fn clone_counters(&self) -> (r: ForeignReceiveCounters)
        ensures
            r.model() == self.model(),
            r.wf() <==> self.wf(),
            forall|s: u32| r.count_spec(s) == self.count_spec(s),
    {
        let mut counters: Vec<(Shard, u64)> = Vec::new();
        let mut i: usize = 0;
        while i < self.counters.len()
            invariant
                i <= self.counters@.len(),
                counters@ == self.counters@.take(i as int),
            decreases self.counters@.len() - i,
        {
            counters.push(self.counters[i]);
            i = i + 1;
        }
        proof {
            assert(self.counters@.take(self.counters@.len() as int) =~= self.counters@);
        }
        ForeignReceiveCounters { counters }
    }
}

impl Default for ForeignReceiveCounters {
    fn default() -> (r: Self)
        ensures
            r.wf(),
            forall|s: u32| r.count_spec(s) == 0,
    {
        ForeignReceiveCounters::new()
    }
}

proof fn lemma_count_at_index(s: Seq<(Shard, u64)>, i: int)
    requires
        keys_unique(s),
        0 <= i < s.len(),
    ensures
        count_in(s, s[i].0.0) == s[i].1,
    decreases s.len(),
{
    if i == 0 {
    } else {
        assert(s[0].0.0 != s[i].0.0);
        assert(s.skip(1)[i - 1] == s[i]);
        lemma_count_at_index(s.skip(1), i - 1);
    }
}

proof fn lemma_count_absent(s: Seq<(Shard, u64)>, shard: u32)
    requires
        forall|j: int| 0 <= j < s.len() ==> s[j].0.0 != shard,
    ensures
        count_in(s, shard) == 0,
    decreases s.len(),
{
    if s.len() > 0 {
        assert forall|j: int| 0 <= j < s.skip(1).len() implies s.skip(1)[j].0.0 != shard by {
            assert(s.skip(1)[j] == s[j + 1]);
        }
        lemma_count_absent(s.skip(1), shard);
    }
}

proof fn lemma_count_push(s: Seq<(Shard, u64)>, entry: (Shard, u64))
    requires
        forall|j: int| 0 <= j < s.len() ==> s[j].0.0 != entry.0.0,
    ensures
        count_in(s.push(entry), entry.0.0) == entry.1,
        forall|t: u32| t != entry.0.0 ==> count_in(s.push(entry), t) == count_in(s, t),
        keys_unique(s) ==> keys_unique(s.push(entry)),
    decreases s.len(),
{
    if s.len() == 0 {
        assert(s.push(entry)[0] == entry);
        assert forall|t: u32| t != entry.0.0 implies count_in(s.push(entry), t) == count_in(
            s,
            t,
        ) by {
            assert(s.push(entry).skip(1) =~= s);
        }
    } else {
        assert(s.push(entry)[0] == s[0]);
        assert(s.push(entry).skip(1) =~= s.skip(1).push(entry));
        assert forall|j: int| 0 <= j < s.skip(1).len() implies s.skip(1)[j].0.0 != entry.0.0 by {
            assert(s.skip(1)[j] == s[j + 1]);
        }
        lemma_count_push(s.skip(1), entry);
        assert(s[0].0.0 != entry.0.0);
        assert(count_in(s.push(entry), entry.0.0) == count_in(s.skip(1).push(entry), entry.0.0));
        assert forall|t: u32| t != entry.0.0 implies count_in(s.push(entry), t) == count_in(
            s,
            t,
        ) by {
            if s[0].0.0 != t {
                assert(count_in(s.push(entry), t) == count_in(s.skip(1).push(entry), t));
                assert(count_in(s, t) == count_in(s.skip(1), t));
            }
        }
        if keys_unique(s) {
            assert forall|i: int, j: int|
                0 <= i < j < s.push(entry).len() implies s.push(entry)[i].0.0 != s.push(
                entry,
            )[j].0.0 by {
                if j < s.len() {
                    assert(s.push(entry)[i] == s[i]);
                    assert(s.push(entry)[j] == s[j]);
                } else {
                    assert(s.push(entry)[i] == s[i]);
                    assert(s.push(entry)[j] == entry);
                }
            }
        }
    }
}

proof fn lemma_count_update(s: Seq<(Shard, u64)>, i: int, entry: (Shard, u64))
    requires
        keys_unique(s),
        0 <= i < s.len(),
        s[i].0 == entry.0,
    ensures
        count_in(s.update(i, entry), entry.0.0) == entry.1,
        forall|t: u32| t != entry.0.0 ==> count_in(s.update(i, entry), t) == count_in(s, t),
        keys_unique(s.update(i, entry)),
    decreases s.len(),
{
    if i == 0 {
        assert(s.update(0, entry)[0] == entry);
        assert(s.update(0, entry).skip(1) =~= s.skip(1));
        assert forall|t: u32| t != entry.0.0 implies count_in(s.update(i, entry), t) == count_in(
            s,
            t,
        ) by {
            if s[0].0.0 == t {
            }
        }
    } else {
        assert(s.update(i, entry)[0] == s[0]);
        assert(s.update(i, entry).skip(1) =~= s.skip(1).update(i - 1, entry));
        assert(s.skip(1)[i - 1] == s[i]);
        lemma_count_update(s.skip(1), i - 1, entry);
        assert(s[0].0.0 != entry.0.0);
        assert(count_in(s.update(i, entry), entry.0.0) == count_in(
            s.skip(1).update(i - 1, entry),
            entry.0.0,
        ));
        assert forall|t: u32| t != entry.0.0 implies count_in(s.update(i, entry), t) == count_in(
            s,
            t,
        ) by {
            if s[0].0.0 != t {
                assert(count_in(s.update(i, entry), t) == count_in(
                    s.skip(1).update(i - 1, entry),
                    t,
                ));
                assert(count_in(s, t) == count_in(s.skip(1), t));
            }
        }
        assert forall|a: int, b: int|
            0 <= a < b < s.update(i, entry).len() implies s.update(i, entry)[a].0.0 != s.update(
            i,
            entry,
        )[b].0.0 by {
            assert(s.update(i, entry)[a].0 == s[a].0);
            assert(s.update(i, entry)[b].0 == s[b].0);
        }
    }
}

/// Over any run of relay absorptions, the count seen for a shard never
/// decreases: each step either raises it by one or leaves it unchanged.
///
/// `states` is the trace of counter values and `groups` the relays absorbed,
/// step `k` taking `states[k]` to `states[k + 1]`.
pub proof fn lemma_counter_monotonic(
    states: Seq<ForeignReceiveCounters>,
    groups: Seq<ShardGroup>,
    shard: u32,
)
    requires
        states.len() == groups.len() + 1,
        forall|k: int|
            0 <= k < groups.len() ==> incremented_by(
                #[trigger] states[k + 1],
                states[k],
                groups[k],
            ),
    ensures
        forall|i: int, j: int|
            0 <= i <= j < states.len() ==> #[trigger] states[i].count_spec(shard)
                <= #[trigger] states[j].count_spec(shard),
    decreases groups.len(),
{
    if groups.len() > 0 {
        let n = groups.len() as int;
        lemma_counter_monotonic(states.take(n), groups.take(n - 1), shard);
        assert forall|i: int, j: int|
            0 <= i <= j < states.len() implies #[trigger] states[i].count_spec(shard)
            <= #[trigger] states[j].count_spec(shard) by {
            if j < n {
                assert(states.take(n)[i] == states[i]);
                assert(states.take(n)[j] == states[j]);
            } else {
                assert(incremented_by(states[n - 1 + 1], states[n - 1], groups[n - 1]));
                assert(states[n - 1].count_spec(shard) <= states[n].count_spec(shard));
                if i < n {
                    assert(states.take(n)[i] == states[i]);
                    assert(states.take(n)[n - 1] == states[n - 1]);
                }
            }
        }
    }
}

/// Absorbing the same relay twice reflects both deliveries: a shard of the
/// group counts two higher than before the pair. Deduplication is the
/// caller's responsibility, using the counter value.
pub proof fn lemma_duplicate_relay_counts_twice(
    pre: ForeignReceiveCounters,
    mid: ForeignReceiveCounters,
    post: ForeignReceiveCounters,
    group: ShardGroup,
    shard: u32,
)
    requires
        incremented_by(mid, pre, group),
        incremented_by(post, mid, group),
        group.contains_spec(shard),
    ensures
        post.count_spec(shard) == pre.count_spec(shard) + 2,
{
}

} // verus!
