//! The decision logic of the wallet's transaction service: assembling the
//! instruction lists of a submission, detecting the substates a
//! transaction references, selecting the active signing key, and the
//! wait-for-result step function. The surrounding service performs the
//! key lookups, event waits and network calls and hands their results in
//! as plain values.

use vstd::prelude::*;
use vstd::string::StringSliceAdditionalSpecFns;

use crate::confidential::Amount;
use crate::transaction::{Arg, Instruction};
use crate::types::TransactionId;

verus! {

/// A substate a transaction needs, optionally pinned to a version.
#[derive(Debug, Clone, Copy, PartialEq, Eq, Structural)]
pub struct SubstateRequirement {
    pub substate_id: u64,
    pub version: Option<u32>,
}

impl SubstateRequirement {
    /// The requirement with no version pinned.
    pub fn unversioned(substate_id: u64) -> (r: SubstateRequirement)
        ensures
            r.substate_id == substate_id,
            r.version is None,
    {
        SubstateRequirement { substate_id, version: None }
    }
}

/// Some instruction calls a method on the component at `addr`.
pub open spec fn calls_component(instructions: Seq<Instruction>, addr: u64) -> bool {
    exists|i: int|
        0 <= i < instructions.len() && ((#[trigger] instructions[i]) matches
            Instruction::CallMethod { component_address, .. } && component_address == addr)
}

/// The component addresses the given instructions call methods on: the
/// substates a submission references directly. Addresses referenced only
/// from inside literal argument values are indexed by the execution
/// engine, an external collaborator, and are not collected here.
pub fn referenced_component_addresses(instructions: &Vec<Instruction>) -> (r: Vec<u64>)
    ensures
        forall|k: int| 0 <= k < r@.len() ==> calls_component(instructions@, #[trigger] r@[k]),
        forall|i: int|
            0 <= i < instructions@.len() ==> ((#[trigger] instructions@[i]) matches
                Instruction::CallMethod { component_address, .. } ==> r@.contains(
                component_address,
            )),
        r@.no_duplicates(),
{
    let mut out: Vec<u64> = Vec::new();
    let mut i: usize = 0;
    while i < instructions.len()
        invariant
            i <= instructions@.len(),
            forall|k: int|
                0 <= k < out@.len() ==> calls_component(instructions@, #[trigger] out@[k]),
            forall|a: int|
                0 <= a < i ==> ((#[trigger] instructions@[a]) matches Instruction::CallMethod {
                    component_address,
                    ..
                } ==> out@.contains(component_address)),
            out@.no_duplicates(),
        decreases instructions@.len() - i,
    {
        match &instructions[i] {
            Instruction::CallMethod { component_address, .. } => {
                let addr: u64 = *component_address;
                let mut seen = false;
                let mut j: usize = 0;
                while !seen && j < out.len()
                    invariant
                        j <= out@.len(),
                        seen ==> out@.contains(addr),
                        !seen ==> forall|t: int| 0 <= t < j ==> out@[t] != addr,
                    decreases out@.len() - j, (if seen {
                        0int
                    } else {
                        1int
                    }),
                {
                    if out[j] == addr {
                        seen = true;
                    } else {
                        j = j + 1;
                    }
                }
                if !seen {
                    let ghost pre = out@;
                    out.push(addr);
                    proof {
                        let n = out@.len() as int;
                        assert(out@[n - 1] == addr);
                        assert(out@.contains(addr));
                        assert forall|x: u64| pre.contains(x) implies out@.contains(x) by {
                            let t = choose|t: int| 0 <= t < pre.len() && pre[t] == x;
                            assert(out@[t] == x);
                        }
                        assert(calls_component(instructions@, addr)) by {
                            assert(instructions@[i as int] matches Instruction::CallMethod {
                                component_address,
                                ..
                            } && component_address == addr);
                        }
                        assert forall|a: int, b: int|
                            0 <= a < b < n implies out@[a] != out@[b] by {
                            if b < n - 1 {
                                assert(out@[a] == pre[a]);
                                assert(out@[b] == pre[b]);
                            } else {
                                assert(out@[a] == pre[a]);
                            }
                        }
                    }
                }
            },
            _ => {},
        }
        i = i + 1;
    }
    out
}

/// Appends the ids of `add` that `out` does not yet hold, preserving
/// distinctness: afterwards `out` holds an id exactly when it did before
/// or `add` holds it.
fn merge_missing(out: &mut Vec<u64>, add: &Vec<u64>)
    requires
        old(out)@.no_duplicates(),
    ensures
        final(out)@.no_duplicates(),
        forall|x: u64|
            #![trigger final(out)@.contains(x)]
            #![trigger old(out)@.contains(x)]
            #![trigger add@.contains(x)]
            final(out)@.contains(x) <==> (old(out)@.contains(x) || add@.contains(x)),
{
    let mut t: usize = 0;
    while t < add.len()
        invariant
            t <= add@.len(),
            out@.no_duplicates(),
            forall|x: u64|
                out@.contains(x) <==> (old(out)@.contains(x) || exists|u: int|
                    0 <= u < t && add@[u] == x),
        decreases add@.len() - t,
    {
        let id = add[t];
        let mut seen = false;
        let mut j: usize = 0;
        while !seen && j < out.len()
            invariant
                j <= out@.len(),
                seen ==> out@.contains(id),
                !seen ==> forall|u: int| 0 <= u < j ==> out@[u] != id,
            decreases out@.len() - j, (if seen {
                0int
            } else {
                1int
            }),
        {
            if out[j] == id {
                seen = true;
            } else {
                j = j + 1;
            }
        }
        let ghost pre = out@;
        if !seen {
            out.push(id);
            proof {
                let n = out@.len() as int;
                assert(out@[n - 1] == id);
                assert forall|a: int, b: int| 0 <= a < b < n implies out@[a] != out@[b] by {
                    if b < n - 1 {
                        assert(out@[a] == pre[a]);
                        assert(out@[b] == pre[b]);
                    } else {
                        assert(out@[a] == pre[a]);
                    }
                }
            }
        }
        proof {
            assert forall|x: u64|
                out@.contains(x) implies (old(out)@.contains(x) || exists|u: int|
                    0 <= u < t + 1 && add@[u] == x) by {
                let w = choose|w: int| 0 <= w < out@.len() && out@[w] == x;
                if w < pre.len() {
                    assert(pre[w] == x);
                    assert(pre.contains(x));
                    if !old(out)@.contains(x) {
                        let u = choose|u: int| 0 <= u < t && add@[u] == x;
                        assert(0 <= u < t + 1 && add@[u] == x);
                    }
                } else {
                    assert(x == id);
                    assert(add@[t as int] == x);
                }
            }
            assert forall|x: u64|
                (old(out)@.contains(x) || exists|u: int| 0 <= u < t + 1 && add@[u] == x)
                implies out@.contains(x) by {
                if old(out)@.contains(x) {
                    assert(pre.contains(x));
                    let w = choose|w: int| 0 <= w < pre.len() && pre[w] == x;
                    assert(out@[w] == x);
                } else {
                    let u = choose|u: int| 0 <= u < t + 1 && add@[u] == x;
                    if u < t as int {
                        assert(pre.contains(x));
                        let w = choose|w: int| 0 <= w < pre.len() && pre[w] == x;
                        assert(out@[w] == x);
                    } else {
                        assert(x == id);
                        if !seen {
                            assert(out@[out@.len() - 1] == id);
                        }
                    }
                }
            }
        }
        t = t + 1;
    }
}

/// The substates a submission references, assembled from the engine
/// indexer's findings: the component addresses its method calls name
/// directly, together with every substate the indexer found inside a
/// literal argument of a call instruction. `indexed` carries the indexer's
/// finding for each literal argument handed to it: the substate ids the
/// literal references, or `None` where the literal failed to parse. The
/// result is `None` exactly when some literal failed; otherwise it lists
/// each referenced substate once.
pub fn referenced_substates(
    instructions: &Vec<Instruction>,
    indexed: &Vec<Option<Vec<u64>>>,
) -> (r: Option<Vec<u64>>)
    ensures
        r is None <==> (exists|k: int|
            0 <= k < indexed@.len() && (#[trigger] indexed@[k]) is None),
        (match r {
            Some(s) => s@.no_duplicates() && (forall|x: u64|
                s@.contains(x) <==> (calls_component(instructions@, x) || exists|k: int|
                    0 <= k < indexed@.len() && ((#[trigger] indexed@[k]) matches Some(v)
                        && v@.contains(x)))),
            None => true,
        }),
{
    let mut out = referenced_component_addresses(instructions);
    proof {
        assert forall|x: u64| out@.contains(x) implies calls_component(instructions@, x) by {
            let w = choose|w: int| 0 <= w < out@.len() && out@[w] == x;
            assert(calls_component(instructions@, out@[w]));
        }
        assert forall|x: u64| calls_component(instructions@, x) implies out@.contains(x) by {
            let i = choose|i: int|
                0 <= i < instructions@.len() && ((#[trigger] instructions@[i]) matches
                    Instruction::CallMethod { component_address, .. } && component_address == x);
        }
    }
    let mut k: usize = 0;
    while k < indexed.len()
        invariant
            k <= indexed@.len(),
            out@.no_duplicates(),
            forall|t: int| 0 <= t < k ==> !((#[trigger] indexed@[t]) is None),
            forall|x: u64|
                out@.contains(x) <==> (calls_component(instructions@, x) || exists|t: int|
                    0 <= t < k && ((#[trigger] indexed@[t]) matches Some(v) && v@.contains(x))),
        decreases indexed@.len() - k,
    {
        match &indexed[k] {
            Some(v) => {
                let ghost pre = out@;
                merge_missing(&mut out, v);
                proof {
                    assert(indexed@[k as int] == Some(*v));
                    assert forall|x: u64|
                        out@.contains(x) implies (calls_component(instructions@, x) || exists|
                            t: int,
                        |
                            0 <= t < k + 1 && ((#[trigger] indexed@[t]) matches Some(vv)
                                && vv@.contains(x))) by {
                        if !pre.contains(x) {
                            assert(v@.contains(x));
                            assert(indexed@[k as int] matches Some(vv) && vv@.contains(x));
                        }
                    }
                    assert forall|x: u64|
                        (calls_component(instructions@, x) || exists|t: int|
                            0 <= t < k + 1 && ((#[trigger] indexed@[t]) matches Some(vv)
                                && vv@.contains(x))) implies out@.contains(x) by {
                        if calls_component(instructions@, x) {
                            assert(pre.contains(x));
                            assert(out@.contains(x));
                        } else if pre.contains(x) {
                            assert(out@.contains(x));
                        } else {
                            let t = choose|t: int|
                                0 <= t < k + 1 && ((#[trigger] indexed@[t]) matches Some(vv)
                                    && vv@.contains(x));
                            if t < k as int {
                                assert(exists|t2: int|
                                    0 <= t2 < k && ((#[trigger] indexed@[t2]) matches Some(vv)
                                        && vv@.contains(x)));
                                assert(pre.contains(x));
                            }
                            assert(t == k as int);
                            assert(indexed@[t] == Some(*v));
                            assert(v@.contains(x));
                            assert(out@.contains(x));
                        }
                    }
                }
            },
            None => {
                return None;
            },
        }
        k = k + 1;
    }
    Some(out)
}

/// Assembles the detected inputs of a submission: the substates located
/// by the wallet, followed by every directly referenced address as an
/// unversioned requirement; when `use_unversioned` is set, all version
/// pins are dropped.
pub fn collect_detected_inputs(
    located: &Vec<SubstateRequirement>,
    referenced: &Vec<u64>,
    use_unversioned: bool,
) -> (r: Vec<SubstateRequirement>)
    ensures
        r@.len() == located@.len() + referenced@.len(),
        forall|k: int|
            0 <= k < located@.len() ==> (#[trigger] r@[k]).substate_id
                == located@[k].substate_id && r@[k].version == (if use_unversioned {
                None
            } else {
                located@[k].version
            }),
        forall|k: int|
            located@.len() <= k < r@.len() ==> (#[trigger] r@[k]).substate_id == referenced@[k
                - located@.len()] && r@[k].version is None,
{
    let mut out: Vec<SubstateRequirement> = Vec::new();
    let mut i: usize = 0;
    while i < located.len()
        invariant
            i <= located@.len(),
            out@.len() == i,
            forall|k: int|
                0 <= k < i ==> (#[trigger] out@[k]).substate_id == located@[k].substate_id
                    && out@[k].version == (if use_unversioned {
                    None
                } else {
                    located@[k].version
                }),
        decreases located@.len() - i,
    {
        let mut req = located[i];
        if use_unversioned {
            req.version = None;
        }
        out.push(req);
        i = i + 1;
    }
    let mut j: usize = 0;
    while j < referenced.len()
        invariant
            j <= referenced@.len(),
            out@.len() == located@.len() + j,
            forall|k: int|
                0 <= k < located@.len() ==> (#[trigger] out@[k]).substate_id
                    == located@[k].substate_id && out@[k].version == (if use_unversioned {
                    None
                } else {
                    located@[k].version
                }),
            forall|k: int|
                located@.len() <= k < out@.len() ==> (#[trigger] out@[k]).substate_id
                    == referenced@[k - located@.len()] && out@[k].version is None,
        decreases referenced@.len() - j,
    {
        out.push(SubstateRequirement::unversioned(referenced[j]));
        j = j + 1;
    }
    out
}

/// The first active entry of the key-manager rows, as (index, position);
/// `None` exactly when no row is active.
pub fn key_manager_active_index(rows: &Vec<(u64, bool)>) -> (r: Option<u64>)
    ensures
        match r {
            Some(index) => exists|i: int|
                0 <= i < rows@.len() && (#[trigger] rows@[i]) == (index, true) && forall|j: int|
                    0 <= j < i ==> !rows@[j].1,
            None => forall|i: int| 0 <= i < rows@.len() ==> !(#[trigger] rows@[i]).1,
        },
{
    let mut i: usize = 0;
    while i < rows.len()
        invariant
            i <= rows@.len(),
            forall|j: int| 0 <= j < i ==> !(#[trigger] rows@[j]).1,
        decreases rows@.len() - i,
    {
        if rows[i].1 {
            return Some(rows[i].0);
        }
        i = i + 1;
    }
    None
}

/// Builds the instruction lists of a call-instruction submission: the fee
/// payment from the fee account becomes the fee instruction, and when a
/// dump account is given, the last instruction's output is placed on the
/// workspace and deposited into it.
pub fn build_submit_instructions(
    instructions: Vec<Instruction>,
    dump_account: Option<u64>,
    fee_account: u64,
    max_fee: Amount,
) -> (r: (Vec<Instruction>, Vec<Instruction>))
    ensures
        r.0@.len() == 1,
        r.0@[0] matches Instruction::CallMethod { component_address, .. } && component_address
            == fee_account,
        (match dump_account {
            Some(dump) => r.1@.len() == instructions@.len() + 2 && (r.1@[r.1@.len() - 1] matches
                Instruction::CallMethod { component_address, .. } && component_address == dump)
                && r.1@[r.1@.len() - 2] is PutLastInstructionOutputOnWorkspace,
            None => r.1@.len() == instructions@.len(),
        }),
        forall|k: int| 0 <= k < instructions@.len() ==> r.1@[k] == instructions@[k],
{
    let mut body = instructions;
    match dump_account {
        Some(dump) => {
            let key = vstd::slice::slice_to_vec("bucket".as_bytes());
            body.push(Instruction::PutLastInstructionOutputOnWorkspace { key });
            let dkey = vstd::slice::slice_to_vec("bucket".as_bytes());
            let method = vstd::slice::slice_to_vec("deposit".as_bytes());
            let mut args: Vec<Arg> = Vec::new();
            args.push(Arg::Variable(dkey));
            body.push(Instruction::CallMethod { component_address: dump, method, args });
        },
        None => {},
    }
    let fee_method = vstd::slice::slice_to_vec("pay_fee".as_bytes());
    let mut fee_arg: Vec<u8> = Vec::new();
    let v: u64 = #[verifier::truncate] (max_fee.value() as u64);
    let mut b: u64 = 0;
    while b < 8
        invariant
            b <= 8,
            fee_arg@.len() == b,
        decreases 8 - b,
    {
        let byte: u8 = #[verifier::truncate] ((v >> (8 * b)) as u8);
        fee_arg.push(byte);
        b = b + 1;
    }
    let mut fee_args: Vec<Arg> = Vec::new();
    fee_args.push(Arg::Literal(fee_arg));
    let mut fee_instructions: Vec<Instruction> = Vec::new();
    fee_instructions.push(
        Instruction::CallMethod { component_address: fee_account, method: fee_method, args: fee_args },
    );
    (fee_instructions, body)
}

/// Builds the instruction sequence that claims a burnt commitment and
/// deposits the claimed funds into an account: the claim itself, placing
/// its output on the workspace, and the confidential deposit.
pub fn build_claim_burn_instructions(
    commitment_address: Vec<u8>,
    range_proof: Vec<u8>,
    proof_of_knowledge: Vec<u8>,
    account_component: u64,
) -> (r: Vec<Instruction>)
    ensures
        r@.len() == 3,
        r@[0] == (Instruction::ClaimBurn { commitment_address, range_proof, proof_of_knowledge }),
        (r@[1] matches Instruction::PutLastInstructionOutputOnWorkspace { key } && key@
            == "burn".spec_bytes()),
        (r@[2] matches Instruction::CallMethod { component_address, method, args }
            && component_address == account_component && method@
            == "deposit_confidential".spec_bytes() && args@.len() == 1 && (args@[0] matches
            Arg::Variable(name) && name@ == "burn".spec_bytes())),
{
    let mut out: Vec<Instruction> = Vec::new();
    out.push(Instruction::ClaimBurn { commitment_address, range_proof, proof_of_knowledge });
    let key = vstd::slice::slice_to_vec("burn".as_bytes());
    out.push(Instruction::PutLastInstructionOutputOnWorkspace { key });
    let method = vstd::slice::slice_to_vec("deposit_confidential".as_bytes());
    let name = vstd::slice::slice_to_vec("burn".as_bytes());
    let mut args: Vec<Arg> = Vec::new();
    args.push(Arg::Variable(name));
    out.push(Instruction::CallMethod { component_address: account_component, method, args });
    out
}

/// An event the wallet's notifier delivers while a caller waits for a
/// transaction result.
#[derive(Debug, Clone, Copy, PartialEq, Eq, Structural)]
pub enum WalletEvent {
    /// A transaction finalized with a result and final fee.
    TransactionFinalized { transaction_id: TransactionId, final_fee: Amount },
    /// A transaction was found invalid before finalizing.
    TransactionInvalid { transaction_id: TransactionId, final_fee: Amount },
    /// Any other event, irrelevant to waiting.
    Other,
}

/// The answer a waiting caller receives.
#[derive(Debug, Clone, Copy, PartialEq, Eq, Structural)]
pub struct WaitResultResponse {
    pub transaction_id: TransactionId,
    /// Whether a finalize result exists for the transaction.
    pub finalized: bool,
    pub final_fee: Amount,
    pub timed_out: bool,
}

/// What the wait loop does next.
#[derive(Debug, Clone, Copy, PartialEq, Eq, Structural)]
pub enum WaitResultStep {
    Finish(WaitResultResponse),
    Continue,
}

/// One step of the wait-for-result loop: a finalized or invalid event for
/// the awaited transaction finishes the wait with its outcome; every
/// other event continues it.
pub fn wait_result_step(transaction_id: TransactionId, event: &WalletEvent) -> (r: WaitResultStep)
    ensures
        (match *event {
            WalletEvent::TransactionFinalized { transaction_id: tid, final_fee } => if tid
                == transaction_id {
                r == WaitResultStep::Finish(
                    WaitResultResponse { transaction_id, finalized: true, final_fee, timed_out: false },
                )
            } else {
                r == WaitResultStep::Continue
            },
            WalletEvent::TransactionInvalid { transaction_id: tid, final_fee } => if tid
                == transaction_id {
                r == WaitResultStep::Finish(
                    WaitResultResponse {
                        transaction_id,
                        finalized: false,
                        final_fee,
                        timed_out: false,
                    },
                )
            } else {
                r == WaitResultStep::Continue
            },
            WalletEvent::Other => r == WaitResultStep::Continue,
        }),
{
    match event {
        WalletEvent::TransactionFinalized { transaction_id: tid, final_fee } => {
            if tid.0 == transaction_id.0 {
                WaitResultStep::Finish(
                    WaitResultResponse {
                        transaction_id,
                        finalized: true,
                        final_fee: *final_fee,
                        timed_out: false,
                    },
                )
            } else {
                WaitResultStep::Continue
            }
        },
        WalletEvent::TransactionInvalid { transaction_id: tid, final_fee } => {
            if tid.0 == transaction_id.0 {
                WaitResultStep::Finish(
                    WaitResultResponse {
                        transaction_id,
                        finalized: false,
                        final_fee: *final_fee,
                        timed_out: false,
                    },
                )
            } else {
                WaitResultStep::Continue
            }
        },
        WalletEvent::Other => WaitResultStep::Continue,
    }
}

/// The answer when the wait times out before any matching event.
pub fn wait_result_timeout(transaction_id: TransactionId) -> (r: WaitResultResponse)
    ensures
        r.transaction_id == transaction_id,
        !r.finalized,
        r.final_fee.0 == 0,
        r.timed_out,
{
    WaitResultResponse {
        transaction_id,
        finalized: false,
        final_fee: Amount::zero(),
        timed_out: true,
    }
}

} // verus!
