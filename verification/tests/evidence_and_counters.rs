//! The cross-shard unanimity rule and the foreign-receive counters.

use dan_consensus::counters::ForeignReceiveCounters;
use dan_consensus::evidence::{Evidence, EvidenceError, GlobalDecision, GroupVerdicts};
use dan_consensus::types::{Decision, Shard, ShardGroup};

fn g(start: u32, end: u32) -> ShardGroup {
    ShardGroup::new(Shard(start), Shard(end))
}

/// Evidence {G1: Commit, G2: Abort, G3: Commit} resolves to abort.
#[test]
fn any_abort_is_absorbing() {
    let (g1, g2, g3) = (g(0, 1), g(2, 3), g(4, 5));
    let mut v = GroupVerdicts::new(vec![g1, g2, g3]);
    v.record(g1, Decision::Commit).unwrap();
    v.record(g2, Decision::Abort).unwrap();
    v.record(g3, Decision::Commit).unwrap();
    assert_eq!(v.global_decision(), GlobalDecision::Decided(Decision::Abort));
}

/// Evidence {G1: Commit, G2: Commit} resolves to commit only once both
/// have arrived, and is pending before that.
#[test]
fn unanimous_commit_needs_all_groups() {
    let (g1, g2) = (g(0, 1), g(2, 3));
    let mut v = GroupVerdicts::new(vec![g1, g2]);
    assert_eq!(v.global_decision(), GlobalDecision::Pending);
    v.record(g1, Decision::Commit).unwrap();
    assert_eq!(v.global_decision(), GlobalDecision::Pending);
    v.record(g2, Decision::Commit).unwrap();
    assert_eq!(v.global_decision(), GlobalDecision::Decided(Decision::Commit));
}

/// A transaction confined to one shard group is decided by that group's
/// report alone.
#[test]
fn single_group_short_circuits() {
    let g1 = g(0, 7);
    let mut v = GroupVerdicts::new(vec![g1]);
    assert_eq!(v.global_decision(), GlobalDecision::Pending);
    v.record(g1, Decision::Commit).unwrap();
    assert_eq!(v.global_decision(), GlobalDecision::Decided(Decision::Commit));
}

/// A verdict from an uninvolved group, or one contradicting an earlier
/// report, is refused; re-delivery of the same verdict is accepted.
#[test]
fn verdict_errors() {
    let (g1, g2) = (g(0, 1), g(2, 3));
    let mut v = GroupVerdicts::new(vec![g1]);
    assert_eq!(
        v.record(g2, Decision::Commit),
        Err(EvidenceError::UnknownShardGroup)
    );
    v.record(g1, Decision::Commit).unwrap();
    assert_eq!(v.record(g1, Decision::Commit), Ok(()));
    assert_eq!(
        v.record(g1, Decision::Abort),
        Err(EvidenceError::ConflictingVerdict)
    );
}

/// Per-shard evidence accumulates proof ids under the right shard.
#[test]
fn evidence_accumulates_proofs() {
    let shards = vec![Shard(1), Shard(2)];
    let mut e = Evidence::from_shards(&shards);
    assert_eq!(e.entries.len(), 2);
    assert_eq!(e.entries[0].0, Shard(1));
    assert!(e.entries[0].1.is_empty());
    e.add_proof(Shard(2), 41);
    e.add_proof(Shard(9), 42);
    assert_eq!(e.entries[1].1, vec![41]);
    assert_eq!(e.entries[2].0, Shard(9));
    assert_eq!(e.entries[2].1, vec![42]);
    assert_eq!(e.shards(), vec![Shard(1), Shard(2), Shard(9)]);
}

/// An unknown shard counts zero; absorbing a relay raises every shard of
/// the group by exactly one; a duplicate relay counts twice.
#[test]
fn counters_monotonic_per_relay() {
    let mut c = ForeignReceiveCounters::new();
    assert_eq!(c.get_count(&Shard(5)), 0);

    let group = g(4, 6);
    c.increment_group(group);
    assert_eq!(c.get_count(&Shard(3)), 0);
    assert_eq!(c.get_count(&Shard(4)), 1);
    assert_eq!(c.get_count(&Shard(5)), 1);
    assert_eq!(c.get_count(&Shard(6)), 1);
    assert_eq!(c.get_count(&Shard(7)), 0);

    // A duplicated relay still reflects both deliveries; deduplication is
    // the caller's job, using the counter value.
    c.increment_group(group);
    assert_eq!(c.get_count(&Shard(5)), 2);

    // An overlapping group raises only its own shards.
    c.increment_group(g(6, 8));
    assert_eq!(c.get_count(&Shard(5)), 2);
    assert_eq!(c.get_count(&Shard(6)), 3);
    assert_eq!(c.get_count(&Shard(8)), 1);
}

/// Counts never decrease over any sequence of relays.
#[test]
fn counters_never_decrease() {
    let mut c = ForeignReceiveCounters::new();
    let relays = [g(0, 2), g(1, 3), g(0, 0), g(2, 5), g(1, 1)];
    let mut last = 0u64;
    for group in relays {
        c.increment_group(group);
        let now = c.get_count(&Shard(1));
        assert!(now >= last);
        last = now;
    }
    assert_eq!(c.get_count(&Shard(1)), 3);
}
