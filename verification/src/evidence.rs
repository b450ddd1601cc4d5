//! Cross-shard transaction evidence: per-shard proof accumulation and the
//! per-shard-group verdict tracker that decides a transaction's global
//! commit/abort outcome. The aggregation rule is all-or-nothing: a global
//! commit requires unanimity across every involved shard group, and any
//! abort is absorbing.

use vstd::prelude::*;

use crate::types::{Decision, Shard, ShardGroup};

verus! {

/// Mapping from shard to the list of per-shard-group proof fragments
/// (quorum-certificate ids) recorded for it.
#[derive(Debug, Clone, PartialEq, Eq)]
pub struct Evidence {
    pub entries: Vec<(Shard, Vec<u64>)>,
}

/// The mathematical value of an `Evidence`: each covered shard with its
/// recorded proof ids, in entry order.
#[verifier::ext_equal]
pub struct EvidenceModel {
    pub entries: Seq<(Shard, Seq<u64>)>,
}

impl Evidence {
    /// The abstract value of this evidence record.
    pub open spec fn model(&self) -> EvidenceModel {
        EvidenceModel {
            entries: self.entries@.map_values(|e: (Shard, Vec<u64>)| (e.0, e.1@)),
        }
    }

    /// Each shard has at most one entry.
    pub open spec fn wf(&self) -> bool {
        forall|i: int, j: int|
            0 <= i < j < self.entries@.len() ==> self.entries@[i].0.0 != self.entries@[j].0.0
    }

    pub open spec fn contains_shard_spec(&self, shard: u32) -> bool {
        exists|i: int| 0 <= i < self.entries@.len() && self.entries@[i].0.0 == shard
    }

    pub fn empty() -> (r: Evidence)
        ensures
            r.wf(),
            r.entries@.len() == 0,
    {
        Evidence { entries: Vec::new() }
    }

    /// Seeds evidence for a transaction: each involved shard mapped to an
    /// empty proof list.
    pub fn from_shards(shards: &Vec<Shard>) -> (r: Evidence)
        requires
            forall|i: int, j: int|
                0 <= i < j < shards@.len() ==> shards@[i].0 != shards@[j].0,
        ensures
            r.wf(),
            r.entries@.len() == shards@.len(),
            forall|i: int|
                0 <= i < shards@.len() ==> #[trigger] r.entries@[i].0 == shards@[i]
                    && r.entries@[i].1@.len() == 0,
    {
        let mut entries: Vec<(Shard, Vec<u64>)> = Vec::new();
        let mut i: usize = 0;
        while i < shards.len()
            invariant
                i <= shards@.len(),
                entries@.len() == i,
                forall|j: int|
                    0 <= j < i ==> #[trigger] entries@[j].0 == shards@[j] && entries@[j].1@.len()
                        == 0,
            decreases shards@.len() - i,
        {
            let fresh: Vec<u64> = Vec::new();
            entries.push((shards[i], fresh));
            i = i + 1;
        }
        Evidence { entries }
    }

    /// Appends a proof fragment for `shard`, creating the entry if the shard
    /// is not yet present. Every other entry is left exactly as it was: when
    /// the shard is present, only its proof list grows, by `qc_id` alone; when
    /// it is absent, a `(shard, [qc_id])` entry is appended.
    pub fn add_proof(&mut self, shard: Shard, qc_id: u64)
        requires
            old(self).wf(),
        ensures
            final(self).wf(),
            final(self).contains_shard_spec(shard.0),
            old(self).contains_shard_spec(shard.0) ==> (final(self).entries@.len() == old(
                self,
            ).entries@.len() && exists|i: int|
                0 <= i < old(self).entries@.len() && (#[trigger] old(self).entries@[i]).0 == shard
                    && final(self).entries@[i].0 == shard && final(self).entries@[i].1@ == old(
                    self,
                ).entries@[i].1@.push(qc_id) && (forall|j: int|
                    0 <= j < old(self).entries@.len() && j != i
                        ==> (#[trigger] final(self).entries@[j]).0 == old(self).entries@[j].0
                        && final(self).entries@[j].1@ == old(self).entries@[j].1@)),
            !old(self).contains_shard_spec(shard.0) ==> (final(self).entries@.len() == old(
                self,
            ).entries@.len() + 1 && (forall|j: int|
                0 <= j < old(self).entries@.len()
                    ==> (#[trigger] final(self).entries@[j]).0 == old(self).entries@[j].0
                    && final(self).entries@[j].1@ == old(self).entries@[j].1@)
                && final(self).entries@[old(self).entries@.len() as int].0 == shard
                && final(self).entries@[old(self).entries@.len() as int].1@ == seq![qc_id]),
    {
        let mut i: usize = 0;
        while i < self.entries.len()
            invariant
                *self == *old(self),
                old(self).wf(),
                i <= self.entries@.len(),
                forall|j: int| 0 <= j < i ==> self.entries@[j].0.0 != shard.0,
            decreases self.entries@.len() - i,
        {
            if self.entries[i].0.0 == shard.0 {
                let mut entry = self.entries.remove(i);
                entry.1.push(qc_id);
                proof {
                    assert(entry.0.0 == shard.0);
                    assert(entry.0 == shard);
                    assert(entry.1@ == old(self).entries@[i as int].1@.push(qc_id));
                }
                let ghost entry_g = entry;
                let ghost mid = self.entries@;
                self.entries.insert(i, entry);
                proof {
                    let n = self.entries@.len() as int;
                    assert(mid == old(self).entries@.remove(i as int));
                    assert(self.entries@ == mid.insert(i as int, entry_g));
                    assert(n == old(self).entries@.len());
                    assert(self.entries@[i as int].0 == shard);
                    assert(self.entries@[i as int].1@ == old(self).entries@[i as int].1@.push(
                        qc_id,
                    ));
                    assert(old(self).entries@[i as int].0 == shard);
                    assert forall|j: int|
                        0 <= j < old(self).entries@.len() && j != i implies (
                    #[trigger] self.entries@[j]).0 == old(self).entries@[j].0
                        && self.entries@[j].1@ == old(self).entries@[j].1@ by {
                        if j < i {
                            assert(mid[j] == old(self).entries@[j]);
                            assert(self.entries@[j] == mid[j]);
                        } else {
                            assert(mid[j - 1] == old(self).entries@[j]);
                            assert(self.entries@[j] == mid[j - 1]);
                        }
                    }
                    assert(self.entries@[i as int].1@.last() == qc_id);
                    assert forall|a: int, b: int|
                        0 <= a < b < n implies self.entries@[a].0.0 != self.entries@[b].0.0 by {
                        assert(old(self).entries@[a].0.0 != old(self).entries@[b].0.0);
                        if a != i && b != i {
                            assert(self.entries@[a] == old(self).entries@[a]);
                            assert(self.entries@[b] == old(self).entries@[b]);
                        } else if a == i {
                            assert(self.entries@[b] == old(self).entries@[b]);
                        } else {
                            assert(self.entries@[a] == old(self).entries@[a]);
                        }
                    }
                }
                return;
            }
            i = i + 1;
        }
        let mut fresh: Vec<u64> = Vec::new();
        fresh.push(qc_id);
        proof {
            assert(fresh@ =~= seq![qc_id]);
        }
        self.entries.push((shard, fresh));
        proof {
            let n = self.entries@.len() as int;
            assert(self.entries@[n - 1].0 == shard);
            assert(self.entries@[n - 1].1@ =~= seq![qc_id]);
            assert(self.entries@[n - 1].1@.last() == qc_id);
            assert forall|j: int|
                0 <= j < old(self).entries@.len() implies (#[trigger] self.entries@[j]).0 == old(
                self,
            ).entries@[j].0 && self.entries@[j].1@ == old(self).entries@[j].1@ by {
                assert(self.entries@[j] == old(self).entries@[j]);
            }
            assert forall|a: int, b: int|
                0 <= a < b < n implies self.entries@[a].0.0 != self.entries@[b].0.0 by {
                if b < n - 1 {
                    assert(self.entries@[a] == old(self).entries@[a]);
                    assert(self.entries@[b] == old(self).entries@[b]);
                } else {
                    assert(self.entries@[a] == old(self).entries@[a]);
                }
            }
        }
    }

    /// An explicit copy with the same entries.
    pub fn clone_evidence(&self) -> (r: Evidence)
        ensures
            r.model() =~~= self.model(),
            r.wf() <==> self.wf(),
    {
        let mut entries: Vec<(Shard, Vec<u64>)> = Vec::new();
        let mut i: usize = 0;
        while i < self.entries.len()
            invariant
                i <= self.entries@.len(),
                entries@.len() == i,
                forall|j: int|
                    0 <= j < i ==> #[trigger] entries@[j].0 == self.entries@[j].0
                        && entries@[j].1@ == self.entries@[j].1@,
            decreases self.entries@.len() - i,
        {
            let shard = self.entries[i].0;
            let mut proofs: Vec<u64> = Vec::new();
            let mut t: usize = 0;
            while t < self.entries[i].1.len()
                invariant
                    i < self.entries@.len(),
                    t <= self.entries@[i as int].1@.len(),
                    proofs@ == self.entries@[i as int].1@.take(t as int),
                decreases self.entries@[i as int].1@.len() - t,
            {
                proofs.push(self.entries[i].1[t]);
                t = t + 1;
            }
            proof {
                assert(self.entries@[i as int].1@.take(self.entries@[i as int].1@.len() as int)
                    =~= self.entries@[i as int].1@);
            }
            entries.push((shard, proofs));
            i = i + 1;
        }
        let r = Evidence { entries };
        proof {
            assert(r.model().entries =~~= self.model().entries);
            assert forall|a: int, b: int|
                0 <= a < b < r.entries@.len() && self.wf() implies r.entries@[a].0.0
                != r.entries@[b].0.0 by {
                assert(r.entries@[a].0 == self.entries@[a].0);
                assert(r.entries@[b].0 == self.entries@[b].0);
            }
            assert forall|a: int, b: int|
                0 <= a < b < self.entries@.len() && r.wf() implies self.entries@[a].0.0
                != self.entries@[b].0.0 by {
                assert(r.entries@[a].0 == self.entries@[a].0);
                assert(r.entries@[b].0 == self.entries@[b].0);
            }
        }
        r
    }

    /// The shards this evidence covers, in entry order.
    pub fn shards(&self) -> (r: Vec<Shard>)
        ensures
            r@.len() == self.entries@.len(),
            forall|i: int| 0 <= i < r@.len() ==> r@[i] == self.entries@[i].0,
    {
        let mut out: Vec<Shard> = Vec::new();
        let mut i: usize = 0;
        while i < self.entries.len()
            invariant
                i <= self.entries@.len(),
                out@.len() == i,
                forall|j: int| 0 <= j < i ==> out@[j] == self.entries@[j].0,
            decreases self.entries@.len() - i,
        {
            out.push(self.entries[i].0);
            i = i + 1;
        }
        out
    }
}

/// Why a shard-group verdict was refused.
#[derive(Debug, Clone, Copy, PartialEq, Eq, Structural)]
pub enum EvidenceError {
    /// The reporting group does not touch the transaction's involved shards.
    UnknownShardGroup,
    /// The group already reported the opposite verdict.
    ConflictingVerdict,
}

/// A transaction's global outcome as seen so far.
#[derive(Debug, Clone, Copy, PartialEq, Eq, Structural)]
pub enum GlobalDecision {
    /// Not every involved shard group has reported, and none aborted.
    Pending,
    /// The outcome is final.
    Decided(Decision),
}

/// Per-transaction tracker of shard-group verdicts, driving cross-shard
/// atomic commit: the global decision is commit only once every involved
/// group reports commit, and abort as soon as any group reports abort.
#[derive(Debug, Clone)]
pub struct GroupVerdicts {
    pub involved: Vec<ShardGroup>,
    pub reports: Vec<(ShardGroup, Decision)>,
}

impl GroupVerdicts {
    pub open spec fn wf(&self) -> bool {
        &&& forall|i: int, j: int|
            0 <= i < j < self.involved@.len() ==> self.involved@[i] != self.involved@[j]
        &&& forall|i: int, j: int|
            0 <= i < j < self.reports@.len() ==> self.reports@[i].0 != self.reports@[j].0
        &&& forall|i: int|
            0 <= i < self.reports@.len() ==> self.involved@.contains(
                #[trigger] self.reports@[i].0,
            )
    }

    pub open spec fn involved_spec(&self) -> Seq<ShardGroup> {
        self.involved@
    }

    /// Whether `group` has reported a verdict.
    pub open spec fn has_report_spec(&self, group: ShardGroup) -> bool {
        exists|j: int| 0 <= j < self.reports@.len() && self.reports@[j].0 == group
    }

    /// Whether `group` has reported exactly `verdict`.
    pub open spec fn reported_spec(&self, group: ShardGroup, verdict: Decision) -> bool {
        exists|j: int|
            0 <= j < self.reports@.len() && self.reports@[j] == (group, verdict)
    }

    /// Some involved group has reported an abort.
    pub open spec fn any_abort_spec(&self) -> bool {
        exists|j: int| 0 <= j < self.reports@.len() && self.reports@[j].1 == Decision::Abort
    }

    /// Every involved group has reported.
    pub open spec fn all_reported_spec(&self) -> bool {
        forall|i: int|
            0 <= i < self.involved@.len() ==> self.has_report_spec(#[trigger] self.involved@[i])
    }

    /// The unanimity rule: abort as soon as any group aborts; commit once
    /// every involved group has reported (necessarily commit); pending
    /// otherwise.
    pub open spec fn global_decision_spec(&self) -> GlobalDecision {
        if self.any_abort_spec() {
            GlobalDecision::Decided(Decision::Abort)
        } else if self.all_reported_spec() {
            GlobalDecision::Decided(Decision::Commit)
        } else {
            GlobalDecision::Pending
        }
    }

    /// Starts tracking a transaction whose involved shards touch exactly
    /// `involved` shard groups.
    pub fn new(involved: Vec<ShardGroup>) -> (r: GroupVerdicts)
        requires
            forall|i: int, j: int|
                0 <= i < j < involved@.len() ==> involved@[i] != involved@[j],
        ensures
            r.wf(),
            r.involved_spec() == involved@,
            r.reports@.len() == 0,
            r.global_decision_spec() == if involved@.len() == 0 {
                GlobalDecision::Decided(Decision::Commit)
            } else {
                GlobalDecision::Pending
            },
    {
        let r = GroupVerdicts { involved, reports: Vec::new() };
        proof {
            if r.involved@.len() > 0 {
                assert(!r.has_report_spec(r.involved@[0]));
            }
        }
        r
    }

    /// Records one shard group's verdict. Re-delivery of the same verdict is
    /// accepted and changes nothing; a verdict from a group that is not
    /// involved, or one that contradicts an earlier report, is refused and
    /// changes nothing.
    pub fn record(&mut self, group: ShardGroup, verdict: Decision) -> (r: Result<
        (),
        EvidenceError,
    >)
        requires
            old(self).wf(),
        ensures
            final(self).wf(),
            final(self).involved_spec() == old(self).involved_spec(),
            r == Ok::<(), EvidenceError>(()) <==> (old(self).involved@.contains(group)
                && (!old(self).has_report_spec(group) || old(self).reported_spec(group, verdict))),
            r == Err::<(), EvidenceError>(EvidenceError::UnknownShardGroup) <==> !old(
                self,
            ).involved@.contains(group),
            r is Ok ==> final(self).reported_spec(group, verdict),
            r is Ok ==> forall|g: ShardGroup, v: Decision|
                #[trigger] old(self).reported_spec(g, v) ==> final(self).reported_spec(g, v),
            r is Ok ==> forall|g: ShardGroup, v: Decision|
                #[trigger] final(self).reported_spec(g, v) ==> (old(self).reported_spec(g, v) || (
                g == group && v == verdict)),
            r is Err ==> *final(self) == *old(self),
    {
        let ghost pre = *self;
        let mut k: usize = 0;
        let mut involved_found = false;
        while !involved_found && k < self.involved.len()
            invariant
                *self == pre,
                k <= self.involved@.len(),
                involved_found ==> self.involved@.contains(group),
                !involved_found ==> forall|j: int| 0 <= j < k ==> self.involved@[j] != group,
            decreases self.involved@.len() - k, (if involved_found { 0int } else { 1int }),
        {
            if self.involved[k] == group {
                involved_found = true;
            } else {
                k = k + 1;
            }
        }
        if !involved_found {
            proof {
                assert(!pre.involved@.contains(group));
            }
            return Err(EvidenceError::UnknownShardGroup);
        }
        let mut j: usize = 0;
        while j < self.reports.len()
            invariant
                *self == pre,
                pre.wf(),
                j <= self.reports@.len(),
                forall|t: int| 0 <= t < j ==> self.reports@[t].0 != group,
            decreases self.reports@.len() - j,
        {
            if self.reports[j].0 == group {
                if self.reports[j].1.is_commit() == verdict.is_commit() {
                    proof {
                        assert(self.reports@[j as int] == (group, verdict));
                    }
                    return Ok(());
                } else {
                    proof {
                        assert forall|t: int|
                            0 <= t < self.reports@.len() && self.reports@[t].0 == group
                                implies self.reports@[t].1 != verdict by {
                            if t != j {
                                assert(self.reports@[t].0 != self.reports@[j as int].0);
                            }
                        }
                    }
                    return Err(EvidenceError::ConflictingVerdict);
                }
            }
            j = j + 1;
        }
        proof {
            assert(!pre.has_report_spec(group));
        }
        self.reports.push((group, verdict));
        proof {
            let n = self.reports@.len() as int;
            assert(self.reports@[n - 1] == (group, verdict));
            assert forall|a: int, b: int|
                0 <= a < b < n implies self.reports@[a].0 != self.reports@[b].0 by {
                if b < n - 1 {
                    assert(self.reports@[a] == pre.reports@[a]);
                    assert(self.reports@[b] == pre.reports@[b]);
                } else {
                    assert(self.reports@[a] == pre.reports@[a]);
                }
            }
            assert forall|i: int|
                0 <= i < self.reports@.len() implies self.involved@.contains(
                #[trigger] self.reports@[i].0,
            ) by {
                if i < n - 1 {
                    assert(self.reports@[i] == pre.reports@[i]);
                }
            }
            assert forall|g: ShardGroup, v: Decision|
                #[trigger] pre.reported_spec(g, v) implies self.reported_spec(g, v) by {
                let t = choose|t: int|
                    0 <= t < pre.reports@.len() && pre.reports@[t] == (g, v);
                assert(self.reports@[t] == (g, v));
            }
            assert forall|g: ShardGroup, v: Decision|
                #[trigger] self.reported_spec(g, v) implies (pre.reported_spec(g, v) || (g
                == group && v == verdict)) by {
                let t = choose|t: int|
                    0 <= t < self.reports@.len() && self.reports@[t] == (g, v);
                if t < n - 1 {
                    assert(pre.reports@[t] == (g, v));
                }
            }
        }
        Ok(())
    }

    /// The transaction's global outcome under the unanimity rule.
    pub fn global_decision(&self) -> (r: GlobalDecision)
        requires
            self.wf(),
        ensures
            r == self.global_decision_spec(),
    {
        let mut j: usize = 0;
        while j < self.reports.len()
            invariant
                j <= self.reports@.len(),
                forall|t: int| 0 <= t < j ==> self.reports@[t].1 != Decision::Abort,
            decreases self.reports@.len() - j,
        {
            if self.reports[j].1.is_abort() {
                proof {
                    assert(self.reports@[j as int].1 == Decision::Abort);
                }
                return GlobalDecision::Decided(Decision::Abort);
            }
            j = j + 1;
        }
        let mut i: usize = 0;
        while i < self.involved.len()
            invariant
                self.wf(),
                !self.any_abort_spec(),
                i <= self.involved@.len(),
                forall|t: int|
                    0 <= t < i ==> self.has_report_spec(#[trigger] self.involved@[t]),
            decreases self.involved@.len() - i,
        {
            let target = self.involved[i];
            let mut found = false;
            let mut t: usize = 0;
            while !found && t < self.reports.len()
                invariant
                    found ==> self.has_report_spec(target),
                    t <= self.reports@.len(),
                    !found ==> forall|u: int| 0 <= u < t ==> self.reports@[u].0 != target,
                decreases self.reports@.len() - t, (if found { 0int } else { 1int }),
            {
                if self.reports[t].0 == target {
                    found = true;
                } else {
                    t = t + 1;
                }
            }
            if !found {
                proof {
                    assert(!self.has_report_spec(target));
                    assert(!self.all_reported_spec());
                }
                return GlobalDecision::Pending;
            }
            i = i + 1;
        }
        GlobalDecision::Decided(Decision::Commit)
    }
}

/// The cross-shard unanimity law. For any well-formed tracker: the global
/// decision is a commit exactly when every involved shard group has
/// reported and no report is an abort; it is an abort exactly when some
/// group reported abort; and it is pending exactly when no group aborted
/// but some involved group has yet to report. A transaction involving a
/// single shard group is decided by that group's report alone.
pub proof fn lemma_cross_shard_unanimity(v: GroupVerdicts)
    requires
        v.wf(),
    ensures
        v.global_decision_spec() == GlobalDecision::Decided(Decision::Abort) <==> v.any_abort_spec(),
        v.global_decision_spec() == GlobalDecision::Decided(Decision::Commit) <==> (
        !v.any_abort_spec() && v.all_reported_spec()),
        v.global_decision_spec() == GlobalDecision::Pending <==> (!v.any_abort_spec()
            && !v.all_reported_spec()),
        v.involved_spec().len() == 1 && v.reported_spec(v.involved_spec()[0], Decision::Commit)
            ==> v.global_decision_spec() == GlobalDecision::Decided(Decision::Commit),
{
    if v.involved_spec().len() == 1 && v.reported_spec(v.involved_spec()[0], Decision::Commit) {
        if v.any_abort_spec() {
            let j = choose|j: int|
                0 <= j < v.reports@.len() && v.reports@[j].1 == Decision::Abort;
            let t = choose|t: int|
                0 <= t < v.reports@.len() && v.reports@[t] == (
                    v.involved_spec()[0],
                    Decision::Commit,
                );
            assert(v.involved@.contains(v.reports@[j].0));
            assert(v.reports@[j].0 == v.involved@[0]);
            assert(j == t);
        }
        assert forall|i: int|
            0 <= i < v.involved@.len() implies v.has_report_spec(#[trigger] v.involved@[i]) by {
            let t = choose|t: int|
                0 <= t < v.reports@.len() && v.reports@[t] == (
                    v.involved_spec()[0],
                    Decision::Commit,
                );
            assert(v.reports@[t].0 == v.involved@[i]);
        }
    }
}

} // verus!
