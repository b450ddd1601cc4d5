//! Transactions as the consensus core sees them: content-addressed
//! instruction lists with three pairwise-disjoint shard sets, and the
//! executed form that pairs a transaction with its execution result.
//!
//! Addresses, keys and signatures are carried as plain identifiers and
//! byte strings: the protocol logic reads nothing of them but identity.

use vstd::prelude::*;

use crate::evidence::Evidence;
use crate::types::{clone_plain_vec, Decision, Shard, TransactionId};

verus! {

/// An argument to an instruction: an inline literal or a reference to a
/// named workspace variable.
#[derive(Debug, Clone, PartialEq, Eq)]
pub enum Arg {
    Literal(Vec<u8>),
    Variable(Vec<u8>),
}

/// One engine instruction. Identifiers (template and component addresses,
/// function and method names, workspace keys) are plain values; the
/// execution engine that interprets them is an external collaborator.
#[derive(Debug, Clone, PartialEq, Eq)]
pub enum Instruction {
    CallFunction { template_address: u64, function: Vec<u8>, args: Vec<Arg> },
    CallMethod { component_address: u64, method: Vec<u8>, args: Vec<Arg> },
    PutLastInstructionOutputOnWorkspace { key: Vec<u8> },
    ClaimBurn { commitment_address: Vec<u8>, range_proof: Vec<u8>, proof_of_knowledge: Vec<u8> },
}

/// The mathematical value of an `Arg`.
#[verifier::ext_equal]
pub enum ArgModel {
    Literal(Seq<u8>),
    Variable(Seq<u8>),
}

impl Arg {
    /// The abstract value of this argument.
    pub open spec fn model(&self) -> ArgModel {
        match *self {
            Arg::Literal(bytes) => ArgModel::Literal(bytes@),
            Arg::Variable(name) => ArgModel::Variable(name@),
        }
    }

    /// An explicit copy with the same payload.
    pub fn clone_arg(&self) -> (r: Arg)
        ensures
            r.model() == self.model(),
    {
        match self {
            Arg::Literal(bytes) => Arg::Literal(clone_plain_vec(bytes)),
            Arg::Variable(name) => Arg::Variable(clone_plain_vec(name)),
        }
    }
}

/// The abstract values of an argument list.
pub open spec fn args_model(args: Seq<Arg>) -> Seq<ArgModel> {
    args.map_values(|a: Arg| a.model())
}

/// An explicit elementwise copy of an argument list.
pub fn clone_args(args: &Vec<Arg>) -> (r: Vec<Arg>)
    ensures
        args_model(r@) =~= args_model(args@),
{
    let mut out: Vec<Arg> = Vec::new();
    let mut i: usize = 0;
    while i < args.len()
        invariant
            i <= args@.len(),
            out@.len() == i,
            forall|j: int| 0 <= j < i ==> #[trigger] out@[j].model() == args@[j].model(),
        decreases args@.len() - i,
    {
        out.push(args[i].clone_arg());
        i = i + 1;
    }
    out
}

/// The mathematical value of an `Instruction`.
#[verifier::ext_equal]
pub enum InstructionModel {
    CallFunction { template_address: u64, function: Seq<u8>, args: Seq<ArgModel> },
    CallMethod { component_address: u64, method: Seq<u8>, args: Seq<ArgModel> },
    PutLastInstructionOutputOnWorkspace { key: Seq<u8> },
    ClaimBurn {
        commitment_address: Seq<u8>,
        range_proof: Seq<u8>,
        proof_of_knowledge: Seq<u8>,
    },
}

impl Instruction {
    /// The abstract value of this instruction.
    pub open spec fn model(&self) -> InstructionModel {
        match *self {
            Instruction::CallFunction { template_address, function, args } => {
                InstructionModel::CallFunction {
                    template_address,
                    function: function@,
                    args: args_model(args@),
                }
            },
            Instruction::CallMethod { component_address, method, args } => {
                InstructionModel::CallMethod {
                    component_address,
                    method: method@,
                    args: args_model(args@),
                }
            },
            Instruction::PutLastInstructionOutputOnWorkspace { key } => {
                InstructionModel::PutLastInstructionOutputOnWorkspace { key: key@ }
            },
            Instruction::ClaimBurn { commitment_address, range_proof, proof_of_knowledge } => {
                InstructionModel::ClaimBurn {
                    commitment_address: commitment_address@,
                    range_proof: range_proof@,
                    proof_of_knowledge: proof_of_knowledge@,
                }
            },
        }
    }

    /// An explicit copy with the same fields.
    pub fn clone_instruction(&self) -> (r: Instruction)
        ensures
            r.model() =~~= self.model(),
    {
        match self {
            Instruction::CallFunction { template_address, function, args } => {
                Instruction::CallFunction {
                    template_address: *template_address,
                    function: clone_plain_vec(function),
                    args: clone_args(args),
                }
            },
            Instruction::CallMethod { component_address, method, args } => {
                Instruction::CallMethod {
                    component_address: *component_address,
                    method: clone_plain_vec(method),
                    args: clone_args(args),
                }
            },
            Instruction::PutLastInstructionOutputOnWorkspace { key } => {
                Instruction::PutLastInstructionOutputOnWorkspace { key: clone_plain_vec(key) }
            },
            Instruction::ClaimBurn { commitment_address, range_proof, proof_of_knowledge } => {
                Instruction::ClaimBurn {
                    commitment_address: clone_plain_vec(commitment_address),
                    range_proof: clone_plain_vec(range_proof),
                    proof_of_knowledge: clone_plain_vec(proof_of_knowledge),
                }
            },
        }
    }
}

/// The abstract values of an instruction list.
pub open spec fn instructions_model(instructions: Seq<Instruction>) -> Seq<InstructionModel> {
    instructions.map_values(|i: Instruction| i.model())
}

/// An explicit elementwise copy of an instruction list.
pub fn clone_instructions(instructions: &Vec<Instruction>) -> (r: Vec<Instruction>)
    ensures
        instructions_model(r@) =~~= instructions_model(instructions@),
{
    let mut out: Vec<Instruction> = Vec::new();
    let mut i: usize = 0;
    while i < instructions.len()
        invariant
            i <= instructions@.len(),
            out@.len() == i,
            forall|j: int|
                0 <= j < i ==> #[trigger] out@[j].model() =~~= instructions@[j].model(),
        decreases instructions@.len() - i,
    {
        out.push(instructions[i].clone_instruction());
        i = i + 1;
    }
    out
}

/// How a transaction touches one substate: destroyed, read-only, or
/// created.
#[derive(Debug, Clone, Copy, PartialEq, Eq, Structural)]
pub enum SubstateChange {
    Destroy,
    Exists,
    Create,
}

/// The mathematical value of a `Transaction`.
#[verifier::ext_equal]
pub struct TransactionModel {
    pub hash: TransactionId,
    pub fee_instructions: Seq<InstructionModel>,
    pub instructions: Seq<InstructionModel>,
    pub signature: Seq<u8>,
    pub sender_public_key: Seq<u8>,
    pub inputs: Seq<Shard>,
    pub input_refs: Seq<Shard>,
    pub outputs: Seq<Shard>,
}

/// A content-addressed transaction with fee and normal instructions, its
/// sender signature and key, and three pairwise-disjoint shard sets.
#[derive(Debug, Clone, PartialEq, Eq)]
pub struct Transaction {
    hash: TransactionId,
    fee_instructions: Vec<Instruction>,
    instructions: Vec<Instruction>,
    signature: Vec<u8>,
    sender_public_key: Vec<u8>,
    /// Input objects that may be downed by this transaction.
    inputs: Vec<Shard>,
    /// Input objects that must exist but cannot be downed by this
    /// transaction.
    input_refs: Vec<Shard>,
    /// Output objects that will be created by this transaction.
    outputs: Vec<Shard>,
}

/// The three shard lists are each duplicate-free and pairwise disjoint.
pub open spec fn shard_sets_wf(
    inputs: Seq<Shard>,
    input_refs: Seq<Shard>,
    outputs: Seq<Shard>,
) -> bool {
    &&& inputs.no_duplicates()
    &&& input_refs.no_duplicates()
    &&& outputs.no_duplicates()
    &&& forall|i: int, j: int|
        0 <= i < inputs.len() && 0 <= j < input_refs.len() ==> inputs[i] != input_refs[j]
    &&& forall|i: int, j: int|
        0 <= i < inputs.len() && 0 <= j < outputs.len() ==> inputs[i] != outputs[j]
    &&& forall|i: int, j: int|
        0 <= i < input_refs.len() && 0 <= j < outputs.len() ==> input_refs[i] != outputs[j]
}

impl Transaction {
    pub open spec fn wf(&self) -> bool {
        shard_sets_wf(self.inputs_spec(), self.input_refs_spec(), self.outputs_spec())
    }

    /// All shards the transaction touches: inputs, then input refs, then
    /// outputs.
    pub open spec fn involved_shards_spec(&self) -> Seq<Shard> {
        self.inputs_spec() + self.input_refs_spec() + self.outputs_spec()
    }

    pub closed spec fn hash_spec(&self) -> TransactionId {
        self.hash
    }

    pub closed spec fn fee_instructions_spec(&self) -> Seq<Instruction> {
        self.fee_instructions@
    }

    pub closed spec fn instructions_spec(&self) -> Seq<Instruction> {
        self.instructions@
    }

    pub closed spec fn signature_spec(&self) -> Seq<u8> {
        self.signature@
    }

    pub closed spec fn sender_public_key_spec(&self) -> Seq<u8> {
        self.sender_public_key@
    }

    pub closed spec fn inputs_spec(&self) -> Seq<Shard> {
        self.inputs@
    }

    pub closed spec fn input_refs_spec(&self) -> Seq<Shard> {
        self.input_refs@
    }

    pub closed spec fn outputs_spec(&self) -> Seq<Shard> {
        self.outputs@
    }

    pub fn new(
        hash: TransactionId,
        fee_instructions: Vec<Instruction>,
        instructions: Vec<Instruction>,
        signature: Vec<u8>,
        sender_public_key: Vec<u8>,
        inputs: Vec<Shard>,
        input_refs: Vec<Shard>,
        outputs: Vec<Shard>,
    ) -> (r: Transaction)
        requires
            shard_sets_wf(inputs@, input_refs@, outputs@),
        ensures
            r.wf(),
            r.hash_spec() == hash,
            r.fee_instructions_spec() == fee_instructions@,
            r.instructions_spec() == instructions@,
            r.signature_spec() == signature@,
            r.sender_public_key_spec() == sender_public_key@,
            r.inputs_spec() == inputs@,
            r.input_refs_spec() == input_refs@,
            r.outputs_spec() == outputs@,
    {
        Transaction {
            hash,
            fee_instructions,
            instructions,
            signature,
            sender_public_key,
            inputs,
            input_refs,
            outputs,
        }
    }

    /// Builds a transaction from the per-object change set of its declared
    /// involved objects: objects it destroys become inputs, objects it only
    /// reads become input refs, and objects it creates become outputs.
    pub fn from_involved_objects(
        hash: TransactionId,
        fee_instructions: Vec<Instruction>,
        instructions: Vec<Instruction>,
        signature: Vec<u8>,
        sender_public_key: Vec<u8>,
        involved_objects: &Vec<(Shard, SubstateChange)>,
    ) -> (r: Transaction)
        requires
            forall|i: int, j: int|
                0 <= i < j < involved_objects@.len() ==> involved_objects@[i].0
                    != involved_objects@[j].0,
        ensures
            r.wf(),
            r.hash_spec() == hash,
            r.fee_instructions_spec() == fee_instructions@,
            r.instructions_spec() == instructions@,
            r.inputs_spec() == shards_with_change(involved_objects@, SubstateChange::Destroy),
            r.input_refs_spec() == shards_with_change(involved_objects@, SubstateChange::Exists),
            r.outputs_spec() == shards_with_change(involved_objects@, SubstateChange::Create),
    {
        let mut inputs: Vec<Shard> = Vec::new();
        let mut input_refs: Vec<Shard> = Vec::new();
        let mut outputs: Vec<Shard> = Vec::new();
        let mut i: usize = 0;
        proof {
            lemma_filter_map_take_empty(involved_objects@);
        }
        while i < involved_objects.len()
            invariant
                i <= involved_objects@.len(),
                forall|a: int, b: int|
                    0 <= a < b < involved_objects@.len() ==> involved_objects@[a].0
                        != involved_objects@[b].0,
                inputs@ == shards_with_change(
                    involved_objects@.take(i as int),
                    SubstateChange::Destroy,
                ),
                input_refs@ == shards_with_change(
                    involved_objects@.take(i as int),
                    SubstateChange::Exists,
                ),
                outputs@ == shards_with_change(
                    involved_objects@.take(i as int),
                    SubstateChange::Create,
                ),
                forall|a: int|
                    0 <= a < inputs@.len() ==> exists|b: int|
                        0 <= b < i && involved_objects@[b].0 == #[trigger] inputs@[a],
                forall|a: int|
                    0 <= a < input_refs@.len() ==> exists|b: int|
                        0 <= b < i && involved_objects@[b].0 == #[trigger] input_refs@[a],
                forall|a: int|
                    0 <= a < outputs@.len() ==> exists|b: int|
                        0 <= b < i && involved_objects@[b].0 == #[trigger] outputs@[a],
                shard_sets_wf(inputs@, input_refs@, outputs@),
            decreases involved_objects@.len() - i,
        {
            let (shard, change) = involved_objects[i];
            proof {
                lemma_filter_map_take_step(involved_objects@, i as int);
                assert forall|a: int| 0 <= a < inputs@.len() implies involved_objects@[i as int].0
                    != #[trigger] inputs@[a] by {
                    let b = choose|b: int|
                        0 <= b < i && involved_objects@[b].0 == inputs@[a];
                    assert(involved_objects@[b].0 != involved_objects@[i as int].0);
                }
                assert forall|a: int|
                    0 <= a < input_refs@.len() implies involved_objects@[i as int].0
                    != #[trigger] input_refs@[a] by {
                    let b = choose|b: int|
                        0 <= b < i && involved_objects@[b].0 == input_refs@[a];
                    assert(involved_objects@[b].0 != involved_objects@[i as int].0);
                }
                assert forall|a: int| 0 <= a < outputs@.len() implies involved_objects@[i as int].0
                    != #[trigger] outputs@[a] by {
                    let b = choose|b: int|
                        0 <= b < i && involved_objects@[b].0 == outputs@[a];
                    assert(involved_objects@[b].0 != involved_objects@[i as int].0);
                }
            }
            match change {
                SubstateChange::Destroy => inputs.push(shard),
                SubstateChange::Exists => input_refs.push(shard),
                SubstateChange::Create => outputs.push(shard),
            }
            i = i + 1;
        }
        proof {
            assert(involved_objects@.take(involved_objects@.len() as int) =~= involved_objects@);
        }
        Transaction {
            hash,
            fee_instructions,
            instructions,
            signature,
            sender_public_key,
            inputs,
            input_refs,
            outputs,
        }
    }

    /// The abstract value of this transaction.
    pub open spec fn model(&self) -> TransactionModel {
        TransactionModel {
            hash: self.hash_spec(),
            fee_instructions: instructions_model(self.fee_instructions_spec()),
            instructions: instructions_model(self.instructions_spec()),
            signature: self.signature_spec(),
            sender_public_key: self.sender_public_key_spec(),
            inputs: self.inputs_spec(),
            input_refs: self.input_refs_spec(),
            outputs: self.outputs_spec(),
        }
    }

    /// An explicit copy with the same fields.
    pub fn clone_transaction(&self) -> (r: Transaction)
        ensures
            r.model() =~~= self.model(),
            r.hash_spec() == self.hash_spec(),
            r.inputs_spec() == self.inputs_spec(),
            r.input_refs_spec() == self.input_refs_spec(),
            r.outputs_spec() == self.outputs_spec(),
            r.wf() <==> self.wf(),
    {
        Transaction {
            hash: self.hash,
            fee_instructions: clone_instructions(&self.fee_instructions),
            instructions: clone_instructions(&self.instructions),
            signature: clone_plain_vec(&self.signature),
            sender_public_key: clone_plain_vec(&self.sender_public_key),
            inputs: clone_plain_vec(&self.inputs),
            input_refs: clone_plain_vec(&self.input_refs),
            outputs: clone_plain_vec(&self.outputs),
        }
    }

    pub fn hash(&self) -> (r: &TransactionId)
        ensures
            *r == self.hash_spec(),
    {
        &self.hash
    }

    pub fn fee_instructions(&self) -> (r: &Vec<Instruction>)
        ensures
            r@ == self.fee_instructions_spec(),
    {
        &self.fee_instructions
    }

    pub fn instructions(&self) -> (r: &Vec<Instruction>)
        ensures
            r@ == self.instructions_spec(),
    {
        &self.instructions
    }

    pub fn signature(&self) -> (r: &Vec<u8>)
        ensures
            r@ == self.signature_spec(),
    {
        &self.signature
    }

    pub fn sender_public_key(&self) -> (r: &Vec<u8>)
        ensures
            r@ == self.sender_public_key_spec(),
    {
        &self.sender_public_key
    }

    pub fn inputs(&self) -> (r: &Vec<Shard>)
        ensures
            r@ == self.inputs_spec(),
    {
        &self.inputs
    }

    pub fn input_refs(&self) -> (r: &Vec<Shard>)
        ensures
            r@ == self.input_refs_spec(),
    {
        &self.input_refs
    }

    pub fn outputs(&self) -> (r: &Vec<Shard>)
        ensures
            r@ == self.outputs_spec(),
    {
        &self.outputs
    }

    /// All shards the transaction touches, in declaration order. Under the
    /// type's well-formedness the result is duplicate-free.
    pub fn involved_shards_iter(&self) -> (r: Vec<Shard>)
        ensures
            r@ == self.involved_shards_spec(),
            self.wf() ==> r@.no_duplicates(),
    {
        let mut out: Vec<Shard> = Vec::new();
        let mut i: usize = 0;
        while i < self.inputs.len()
            invariant
                i <= self.inputs@.len(),
                out@ == self.inputs@.take(i as int),
            decreases self.inputs@.len() - i,
        {
            out.push(self.inputs[i]);
            i = i + 1;
        }
        let mut j: usize = 0;
        while j < self.input_refs.len()
            invariant
                j <= self.input_refs@.len(),
                out@ == self.inputs@ + self.input_refs@.take(j as int),
            decreases self.input_refs@.len() - j,
        {
            proof {
                assert((self.inputs@ + self.input_refs@.take(j as int)).push(
                    self.input_refs@[j as int],
                ) =~= self.inputs@ + self.input_refs@.take(j as int + 1));
            }
            out.push(self.input_refs[j]);
            j = j + 1;
        }
        let mut k: usize = 0;
        while k < self.outputs.len()
            invariant
                k <= self.outputs@.len(),
                out@ == self.inputs@ + self.input_refs@ + self.outputs@.take(k as int),
            decreases self.outputs@.len() - k,
        {
            proof {
                assert((self.inputs@ + self.input_refs@ + self.outputs@.take(k as int)).push(
                    self.outputs@[k as int],
                ) =~= self.inputs@ + self.input_refs@ + self.outputs@.take(k as int + 1));
            }
            out.push(self.outputs[k]);
            k = k + 1;
        }
        proof {
            assert(self.inputs@.take(self.inputs@.len() as int) =~= self.inputs@);
            assert(self.input_refs@.take(self.input_refs@.len() as int) =~= self.input_refs@);
            assert(self.outputs@.take(self.outputs@.len() as int) =~= self.outputs@);
            assert(out@ =~= self.involved_shards_spec());
            if self.wf() {
                lemma_disjoint_concat_no_duplicates(
                    self.inputs@,
                    self.input_refs@,
                    self.outputs@,
                );
            }
        }
        out
    }
}

/// The shards of the entries whose change kind is `c`, in order.
pub open spec fn shards_with_change(s: Seq<(Shard, SubstateChange)>, c: SubstateChange) -> Seq<
    Shard,
> {
    s.filter(|e: (Shard, SubstateChange)| e.1 == c).map_values(
        |e: (Shard, SubstateChange)| e.0,
    )
}

proof fn lemma_filter_map_take_empty(s: Seq<(Shard, SubstateChange)>)
    ensures
        forall|c: SubstateChange|
            #[trigger] shards_with_change(s.take(0), c) =~= Seq::<Shard>::empty(),
{
    assert(s.take(0) =~= Seq::<(Shard, SubstateChange)>::empty());
    assert forall|c: SubstateChange|
        #[trigger] shards_with_change(s.take(0), c) =~= Seq::<Shard>::empty() by {
        reveal_with_fuel(Seq::filter, 1);
        assert(s.take(0).filter(|e: (Shard, SubstateChange)| e.1 == c).len() == 0);
    }
}

proof fn lemma_filter_map_take_step(s: Seq<(Shard, SubstateChange)>, i: int)
    requires
        0 <= i < s.len(),
    ensures
        forall|c: SubstateChange|
            #[trigger] shards_with_change(s.take(i + 1), c) =~= if s[i].1 == c {
                shards_with_change(s.take(i), c).push(s[i].0)
            } else {
                shards_with_change(s.take(i), c)
            },
{
    assert forall|c: SubstateChange|
        #[trigger] shards_with_change(s.take(i + 1), c) =~= if s[i].1 == c {
            shards_with_change(s.take(i), c).push(s[i].0)
        } else {
            shards_with_change(s.take(i), c)
        } by {
        let pred = |e: (Shard, SubstateChange)| e.1 == c;
        assert(s.take(i + 1).drop_last() =~= s.take(i));
        assert(s.take(i + 1).last() == s[i]);
        reveal_with_fuel(Seq::filter, 2);
        assert(s.take(i + 1).filter(pred) == if pred(s[i]) {
            s.take(i).filter(pred).push(s[i])
        } else {
            s.take(i).filter(pred)
        });
    }
}

proof fn lemma_disjoint_concat_no_duplicates(a: Seq<Shard>, b: Seq<Shard>, c: Seq<Shard>)
    requires
        shard_sets_wf(a, b, c),
    ensures
        (a + b + c).no_duplicates(),
{
    let all = a + b + c;
    assert forall|i: int, j: int| 0 <= i < j < all.len() implies all[i] != all[j] by {
        let na = a.len() as int;
        let nb = b.len() as int;
        if i < na {
            assert(all[i] == a[i]);
        } else if i < na + nb {
            assert(all[i] == b[i - na]);
        } else {
            assert(all[i] == c[i - na - nb]);
        }
        if j < na {
            assert(all[j] == a[j]);
        } else if j < na + nb {
            assert(all[j] == b[j - na]);
        } else {
            assert(all[j] == c[j - na - nb]);
        }
    }
}

/// The outcome the execution collaborator reports for one transaction,
/// reduced to what the consensus core reads of it: whether the finalize
/// stage accepted, and whether fee/transaction processing failed (carrying
/// a reason code when it did).
#[derive(Debug, Clone, Copy, PartialEq, Eq, Structural)]
pub struct ExecuteResult {
    pub finalize_accepted: bool,
    pub transaction_failure: Option<u64>,
}

/// The mathematical value of an `ExecutedTransaction`.
#[verifier::ext_equal]
pub struct ExecutedTransactionModel {
    pub transaction: TransactionModel,
    pub result: ExecuteResult,
}

/// A transaction paired with its execution result.
#[derive(Debug, Clone, PartialEq, Eq)]
pub struct ExecutedTransaction {
    transaction: Transaction,
    result: ExecuteResult,
}

impl ExecutedTransaction {
    pub closed spec fn transaction_spec(&self) -> Transaction {
        self.transaction
    }

    pub closed spec fn result_spec(&self) -> ExecuteResult {
        self.result
    }

    pub open spec fn wf(&self) -> bool {
        self.transaction_spec().wf()
    }

    pub fn new(transaction: Transaction, result: ExecuteResult) -> (r: ExecutedTransaction)
        ensures
            r.transaction_spec() == transaction,
            r.result_spec() == result,
    {
        ExecutedTransaction { transaction, result }
    }

    /// The shard group's provisional decision: commit exactly when the
    /// finalize stage accepted, independent of the fee-charging outcome.
    pub fn as_decision(&self) -> (r: Decision)
        ensures
            r == Decision::Commit <==> self.result_spec().finalize_accepted,
    {
        if self.result.finalize_accepted {
            Decision::Commit
        } else {
            Decision::Abort
        }
    }

    /// Commit exactly when fee/transaction processing did not fail.
    pub fn transaction_decision(&self) -> (r: Decision)
        ensures
            r == Decision::Commit <==> self.result_spec().transaction_failure is None,
    {
        if self.result.transaction_failure.is_none() {
            Decision::Commit
        } else {
            Decision::Abort
        }
    }

    /// The abstract value of this record.
    pub open spec fn model(&self) -> ExecutedTransactionModel {
        ExecutedTransactionModel {
            transaction: self.transaction_spec().model(),
            result: self.result_spec(),
        }
    }

    /// An explicit copy with the same fields.
    pub fn clone_record(&self) -> (r: ExecutedTransaction)
        ensures
            r.model() =~~= self.model(),
            r.transaction_spec().hash_spec() == self.transaction_spec().hash_spec(),
            r.result_spec() == self.result_spec(),
            r.wf() <==> self.wf(),
    {
        ExecutedTransaction {
            transaction: self.transaction.clone_transaction(),
            result: self.result,
        }
    }

    pub fn transaction(&self) -> (r: &Transaction)
        ensures
            *r == self.transaction_spec(),
    {
        &self.transaction
    }

    pub fn result(&self) -> (r: &ExecuteResult)
        ensures
            *r == self.result_spec(),
    {
        &self.result
    }

    /// Seeds the transaction's evidence: every involved shard mapped to an
    /// empty proof list.
    pub fn to_initial_evidence(&self) -> (r: Evidence)
        requires
            self.wf(),
        ensures
            r.wf(),
            r.entries@.len() == self.transaction_spec().involved_shards_spec().len(),
            forall|i: int|
                0 <= i < r.entries@.len() ==> #[trigger] r.entries@[i].0
                    == self.transaction_spec().involved_shards_spec()[i] && r.entries@[i].1@.len()
                    == 0,
    {
        let shards = self.transaction.involved_shards_iter();
        Evidence::from_shards(&shards)
    }
}

} // verus!
