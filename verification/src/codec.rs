//! The canonical byte encoding of the records the state store persists:
//! blocks, transactions, and evidence. Integers are little-endian and
//! lists are length-prefixed, so every value has exactly one encoding;
//! decoding an encoded value gives the value back, and re-persisting it
//! reproduces the stored bytes bit for bit.

use vstd::prelude::*;

use crate::block::{atoms_model, AtomModel, Block, BlockModel, QcModel, QuorumCertificate, TransactionAtom};
use crate::evidence::{Evidence, EvidenceModel};
use crate::transaction::{
    args_model, instructions_model, shard_sets_wf, Arg, ArgModel, Instruction, InstructionModel,
    Transaction, TransactionModel,
};
use crate::types::{BlockId, Decision, Epoch, NodeHeight, Shard, TransactionId, ValidatorId};

verus! {

/// 256 to the power `k`.
pub open spec fn pow256(k: nat) -> nat
    decreases k,
{
    if k == 0 {
        1
    } else {
        256 * pow256((k - 1) as nat)
    }
}

/// The little-endian bytes of `v`, `n` bytes long.
pub open spec fn enc_uint(v: nat, n: nat) -> Seq<u8>
    decreases n,
{
    if n == 0 {
        Seq::empty()
    } else {
        seq![(v % 256) as u8] + enc_uint(v / 256, (n - 1) as nat)
    }
}

/// The value of the first `n` bytes of `s`, read little-endian.
pub open spec fn dec_uint(s: Seq<u8>, n: nat) -> nat
    decreases n,
{
    if n == 0 {
        0
    } else {
        (s[0] + 256 * dec_uint(s.skip(1), (n - 1) as nat)) as nat
    }
}

/// An eight-byte little-endian integer.
pub open spec fn enc_u64(v: u64) -> Seq<u8> {
    enc_uint(v as nat, 8)
}

proof fn lemma_enc_uint_len(v: nat, n: nat)
    ensures
        enc_uint(v, n).len() == n,
    decreases n,
{
    if n > 0 {
        lemma_enc_uint_len(v / 256, (n - 1) as nat);
    }
}

proof fn lemma_dec_uint_bound(s: Seq<u8>, n: nat)
    requires
        s.len() >= n,
    ensures
        dec_uint(s, n) < pow256(n),
    decreases n,
{
    if n > 0 {
        lemma_dec_uint_bound(s.skip(1), (n - 1) as nat);
    }
}

proof fn lemma_dec_uint_prefix(s: Seq<u8>, rest: Seq<u8>, n: nat)
    requires
        s.len() >= n,
    ensures
        dec_uint(s + rest, n) == dec_uint(s, n),
    decreases n,
{
    if n > 0 {
        assert((s + rest)[0] == s[0]);
        assert((s + rest).skip(1) =~= s.skip(1) + rest);
        lemma_dec_uint_prefix(s.skip(1), rest, (n - 1) as nat);
    }
}

/// Decoding inverts encoding for fixed-width integers.
proof fn lemma_uint_round_trip(v: nat, n: nat)
    requires
        v < pow256(n),
    ensures
        dec_uint(enc_uint(v, n), n) == v,
    decreases n,
{
    if n > 0 {
        let enc = enc_uint(v, n);
        assert(enc[0] == (v % 256) as u8);
        assert(enc.skip(1) =~= enc_uint(v / 256, (n - 1) as nat));
        assert(v / 256 < pow256((n - 1) as nat)) by {
            assert(pow256(n) == 256 * pow256((n - 1) as nat));
        }
        lemma_uint_round_trip(v / 256, (n - 1) as nat);
        assert(v % 256 + 256 * (v / 256) == v) by {
            vstd::arithmetic::div_mod::lemma_fundamental_div_mod(v as int, 256);
        }
    }
}

proof fn lemma_pow256_8()
    ensures
        pow256(8) == 0x1_0000_0000_0000_0000,
{
    reveal_with_fuel(pow256, 9);
}

/// Appends the eight little-endian bytes of `v`.
pub(crate) fn push_u64(out: &mut Vec<u8>, v: u64)
    ensures
        final(out)@ == old(out)@ + enc_u64(v),
{
    let ghost orig = out@;
    let mut cur: u64 = v;
    let mut i: u64 = 0;
    while i < 8
        invariant
            i <= 8,
            out@ + enc_uint(cur as nat, (8 - i) as nat) == orig + enc_uint(v as nat, 8),
        decreases 8 - i,
    {
        let b: u8 = (cur % 256) as u8;
        proof {
            assert(enc_uint(cur as nat, (8 - i) as nat) == seq![(cur as nat % 256) as u8]
                + enc_uint(cur as nat / 256, (8 - i - 1) as nat));
            assert(out@.push(b) + enc_uint((cur / 256) as nat, (8 - (i + 1)) as nat) =~= out@
                + enc_uint(cur as nat, (8 - i) as nat));
        }
        out.push(b);
        cur = cur / 256;
        i = i + 1;
    }
    proof {
        assert(enc_uint(cur as nat, 0) =~= Seq::<u8>::empty());
        assert(out@ + Seq::<u8>::empty() =~= out@);
        assert(orig + enc_uint(v as nat, 8) == orig + enc_u64(v));
    }
}

/// Reads the eight-byte little-endian integer at `pos`; `None` exactly
/// when fewer than eight bytes remain.
pub(crate) fn read_u64(bytes: &Vec<u8>, pos: usize) -> (r: Option<(u64, usize)>)
    requires
        pos <= bytes@.len(),
    ensures
        match r {
            Some((v, next)) => bytes@.len() - pos >= 8 && next == pos + 8 && v as nat == dec_uint(
                bytes@.skip(pos as int),
                8,
            ),
            None => bytes@.len() - pos < 8,
        },
{
    if bytes.len() - pos < 8 {
        return None;
    }
    let mut v: u64 = 0;
    proof {
        lemma_pow256_8();
        lemma_dec_uint_bound(bytes@.skip(pos as int), 8);
    }
    let mut i: usize = 8;
    while i > 0
        invariant
            i <= 8,
            pos + 8 <= bytes@.len(),
            bytes@.len() <= usize::MAX,
            v as nat == dec_uint(bytes@.skip(pos + i), (8 - i) as nat),
            v < pow256((8 - i) as nat),
            pow256(8) == 0x1_0000_0000_0000_0000,
        decreases i,
    {
        i = i - 1;
        let b: u8 = bytes[pos + i];
        proof {
            let s = bytes@.skip(pos + i);
            assert(s[0] == bytes@[pos + i]);
            assert(s.skip(1) =~= bytes@.skip(pos + i + 1));
            assert(dec_uint(s, (8 - i) as nat) == s[0] + 256 * dec_uint(
                s.skip(1),
                (8 - i - 1) as nat,
            ));
            assert(pow256((8 - i) as nat) == 256 * pow256((8 - i - 1) as nat));
            assert(256 * (v as nat) + b < 256 * pow256((8 - i - 1) as nat)) by {
                assert(v as nat <= pow256((8 - i - 1) as nat) - 1);
                assert(256 * (v as nat) <= 256 * (pow256((8 - i - 1) as nat) - 1)) by (
                nonlinear_arith)
                    requires
                        v as nat <= pow256((8 - i - 1) as nat) - 1,
                ;
            }
            assert(pow256((8 - i) as nat) <= pow256(8)) by {
                lemma_pow256_mono((8 - i) as nat, 8);
            }
        }
        v = v * 256 + (b as u64);
    }
    proof {
        assert(bytes@.skip(pos + 0) =~= bytes@.skip(pos as int));
    }
    Some((v, pos + 8))
}

proof fn lemma_pow256_mono(a: nat, b: nat)
    requires
        a <= b,
    ensures
        pow256(a) <= pow256(b),
    decreases b,
{
    if a < b {
        lemma_pow256_mono(a, (b - 1) as nat);
        assert(pow256(b) == 256 * pow256((b - 1) as nat));
        assert(pow256((b - 1) as nat) <= 256 * pow256((b - 1) as nat)) by (nonlinear_arith)
            requires
                pow256((b - 1) as nat) >= 0,
        ;
    }
}

/// One evidence entry: the shard, then its proof ids.
pub open spec fn enc_evidence_entry(e: (Shard, Seq<u64>)) -> Seq<u8> {
    enc_u64(e.0.0 as u64) + enc_u64_list(e.1)
}

/// A length-prefixed list of integers.
pub open spec fn enc_u64_list(items: Seq<u64>) -> Seq<u8> {
    enc_u64(items.len() as u64) + enc_u64_items(items)
}

pub open spec fn enc_u64_items(items: Seq<u64>) -> Seq<u8>
    decreases items.len(),
{
    if items.len() == 0 {
        Seq::empty()
    } else {
        enc_u64(items[0]) + enc_u64_items(items.skip(1))
    }
}

/// The evidence entries, each shard with its proof list.
pub open spec fn enc_evidence_entries(entries: Seq<(Shard, Seq<u64>)>) -> Seq<u8>
    decreases entries.len(),
{
    if entries.len() == 0 {
        Seq::empty()
    } else {
        enc_evidence_entry(entries[0]) + enc_evidence_entries(entries.skip(1))
    }
}

/// The canonical bytes of an evidence record.
pub open spec fn enc_evidence(m: EvidenceModel) -> Seq<u8> {
    enc_u64(m.entries.len() as u64) + enc_evidence_entries(m.entries)
}

/// Serializes evidence into its canonical bytes.
pub fn encode_evidence(e: &Evidence) -> (r: Vec<u8>)
    requires
        e.entries@.len() < 0x1_0000_0000,
        forall|i: int| 0 <= i < e.entries@.len() ==> (#[trigger] e.entries@[i]).1@.len()
            < 0x1_0000_0000,
    ensures
        r@ == enc_evidence(e.model()),
{
    let mut out: Vec<u8> = Vec::new();
    push_u64(&mut out, e.entries.len() as u64);
    let ghost entries = e.model().entries;
    let mut i: usize = 0;
    proof {
        assert(entries =~= e.entries@.map_values(|en: (Shard, Vec<u64>)| (en.0, en.1@)));
        assert(out@ =~= enc_u64(entries.len() as u64) + enc_evidence_entries(entries.take(0)))
            by {
            assert(entries.take(0) =~= Seq::<(Shard, Seq<u64>)>::empty());
            assert(enc_evidence_entries(entries.take(0)) =~= Seq::<u8>::empty());
        }
    }
    while i < e.entries.len()
        invariant
            i <= e.entries@.len(),
            entries.len() == e.entries@.len(),
            forall|j: int|
                0 <= j < entries.len() ==> #[trigger] entries[j] == (
                    e.entries@[j].0,
                    e.entries@[j].1@,
                ),
            forall|j: int|
                0 <= j < e.entries@.len() ==> (#[trigger] e.entries@[j]).1@.len()
                    < 0x1_0000_0000,
            out@ == enc_u64(entries.len() as u64) + enc_evidence_entries(entries.take(i as int)),
        decreases e.entries@.len() - i,
    {
        let shard = e.entries[i].0;
        push_u64(&mut out, shard.0 as u64);
        push_u64(&mut out, e.entries[i].1.len() as u64);
        let ghost proofs = e.entries@[i as int].1@;
        let mut t: usize = 0;
        proof {
            assert(enc_u64_items(proofs.take(0)) =~= Seq::<u8>::empty());
        }
        let ghost out_base = out@;
        while t < e.entries[i].1.len()
            invariant
                i < e.entries@.len(),
                proofs == e.entries@[i as int].1@,
                t <= proofs.len(),
                out@ == out_base + enc_u64_items(proofs.take(t as int)),
            decreases proofs.len() - t,
        {
            proof {
                lemma_enc_items_take_step(proofs, t as int);
            }
            push_u64(&mut out, e.entries[i].1[t]);
            t = t + 1;
        }
        proof {
            assert(proofs.take(proofs.len() as int) =~= proofs);
            lemma_enc_entries_take_step(entries, i as int);
            assert(entries[i as int] == (e.entries@[i as int].0, proofs));
            assert(enc_evidence_entry(entries[i as int]) == enc_u64(shard.0 as u64) + (enc_u64(
                proofs.len() as u64,
            ) + enc_u64_items(proofs)));
            assert(out@ =~= enc_u64(entries.len() as u64) + enc_evidence_entries(
                entries.take(i as int + 1),
            ));
        }
        i = i + 1;
    }
    proof {
        assert(entries.take(entries.len() as int) =~= entries);
    }
    out
}

proof fn lemma_enc_items_take_step(items: Seq<u64>, t: int)
    requires
        0 <= t < items.len(),
    ensures
        enc_u64_items(items.take(t + 1)) =~= enc_u64_items(items.take(t)) + enc_u64(items[t]),
    decreases t,
{
    if t == 0 {
        assert(items.take(1)[0] == items[0]);
        assert(items.take(1).skip(1) =~= items.take(0));
        assert(enc_u64_items(items.take(0)) =~= Seq::<u8>::empty());
        assert(enc_u64_items(items.take(1)) =~= enc_u64(items[0]));
    } else {
        assert(items.take(t + 1)[0] == items[0]);
        assert(items.take(t)[0] == items[0]);
        assert(items.take(t + 1).skip(1) =~= items.skip(1).take(t));
        assert(items.take(t).skip(1) =~= items.skip(1).take(t - 1));
        assert(items.skip(1)[t - 1] == items[t]);
        lemma_enc_items_take_step(items.skip(1), t - 1);
    }
}

proof fn lemma_enc_entries_take_step(entries: Seq<(Shard, Seq<u64>)>, t: int)
    requires
        0 <= t < entries.len(),
    ensures
        enc_evidence_entries(entries.take(t + 1)) =~= enc_evidence_entries(entries.take(t))
            + enc_evidence_entry(entries[t]),
    decreases t,
{
    if t == 0 {
        assert(entries.take(1)[0] == entries[0]);
        assert(entries.take(1).skip(1) =~= entries.take(0));
        assert(enc_evidence_entries(entries.take(0)) =~= Seq::<u8>::empty());
        assert(enc_evidence_entries(entries.take(1)) =~= enc_evidence_entry(entries[0]));
    } else {
        assert(entries.take(t + 1)[0] == entries[0]);
        assert(entries.take(t)[0] == entries[0]);
        assert(entries.take(t + 1).skip(1) =~= entries.skip(1).take(t));
        assert(entries.take(t).skip(1) =~= entries.skip(1).take(t - 1));
        assert(entries.skip(1)[t - 1] == entries[t]);
        lemma_enc_entries_take_step(entries.skip(1), t - 1);
    }
}

/// Reads an eight-byte integer from the front of `s`.
pub open spec fn dec_u64_spec(s: Seq<u8>) -> Option<(u64, Seq<u8>)> {
    if s.len() < 8 {
        None
    } else {
        Some((dec_uint(s, 8) as u64, s.skip(8)))
    }
}

/// Decoding inverts encoding for eight-byte integers, whatever follows.
proof fn lemma_u64_round_trip(v: u64, rest: Seq<u8>)
    ensures
        dec_u64_spec(enc_u64(v) + rest) == Some((v, rest)),
{
    lemma_enc_uint_len(v as nat, 8);
    lemma_pow256_8();
    lemma_dec_uint_prefix(enc_u64(v), rest, 8);
    lemma_uint_round_trip(v as nat, 8);
    assert((enc_u64(v) + rest).skip(8) =~= rest);
}

/// Reads `n` eight-byte integers from the front of `s`.
pub open spec fn dec_u64_items(s: Seq<u8>, n: nat) -> Option<(Seq<u64>, Seq<u8>)>
    decreases n,
{
    if n == 0 {
        Some((Seq::empty(), s))
    } else {
        match dec_u64_spec(s) {
            Some((v, rest)) => match dec_u64_items(rest, (n - 1) as nat) {
                Some((vs, rest2)) => Some((seq![v] + vs, rest2)),
                None => None,
            },
            None => None,
        }
    }
}

proof fn lemma_items_round_trip(items: Seq<u64>, rest: Seq<u8>)
    ensures
        dec_u64_items(enc_u64_items(items) + rest, items.len()) == Some((items, rest)),
    decreases items.len(),
{
    if items.len() == 0 {
        assert(enc_u64_items(items) + rest =~= rest);
        assert(seq![] + rest =~= rest);
        assert(items =~= Seq::<u64>::empty());
    } else {
        let tail = items.skip(1);
        lemma_items_round_trip(tail, rest);
        assert(enc_u64_items(items) + rest =~= enc_u64(items[0]) + (enc_u64_items(tail) + rest));
        lemma_u64_round_trip(items[0], enc_u64_items(tail) + rest);
        assert(seq![items[0]] + tail =~= items);
    }
}

/// Reads one evidence entry from the front of `s`: the shard (which must
/// fit its 32 bits), then its length-prefixed proof list.
pub open spec fn dec_evidence_entry(s: Seq<u8>) -> Option<((Shard, Seq<u64>), Seq<u8>)> {
    match dec_u64_spec(s) {
        Some((shard, rest)) => if shard < 0x1_0000_0000 {
            match dec_u64_spec(rest) {
                Some((count, rest2)) => match dec_u64_items(rest2, count as nat) {
                    Some((proofs, rest3)) => Some(((Shard(shard as u32), proofs), rest3)),
                    None => None,
                },
                None => None,
            }
        } else {
            None
        },
        None => None,
    }
}

/// Reads `n` evidence entries from the front of `s`.
pub open spec fn dec_evidence_entries(s: Seq<u8>, n: nat) -> Option<
    (Seq<(Shard, Seq<u64>)>, Seq<u8>),
>
    decreases n,
{
    if n == 0 {
        Some((Seq::empty(), s))
    } else {
        match dec_evidence_entry(s) {
            Some((e, rest)) => match dec_evidence_entries(rest, (n - 1) as nat) {
                Some((es, rest2)) => Some((seq![e] + es, rest2)),
                None => None,
            },
            None => None,
        }
    }
}

/// Reads an evidence record from the front of `s`.
pub open spec fn dec_evidence(s: Seq<u8>) -> Option<(EvidenceModel, Seq<u8>)> {
    match dec_u64_spec(s) {
        Some((count, rest)) => match dec_evidence_entries(rest, count as nat) {
            Some((entries, rest2)) => Some((EvidenceModel { entries }, rest2)),
            None => None,
        },
        None => None,
    }
}

/// A whole buffer holds exactly one evidence record.
pub open spec fn dec_evidence_full(s: Seq<u8>) -> Option<EvidenceModel> {
    match dec_evidence(s) {
        Some((m, rest)) => if rest.len() == 0 {
            Some(m)
        } else {
            None
        },
        None => None,
    }
}

proof fn lemma_entry_round_trip(e: (Shard, Seq<u64>), rest: Seq<u8>)
    requires
        e.1.len() < 0x1_0000_0000_0000_0000,
    ensures
        dec_evidence_entry(enc_evidence_entry(e) + rest) == Some((e, rest)),
{
    let proofs_enc = enc_u64_items(e.1);
    assert(enc_evidence_entry(e) + rest =~= enc_u64(e.0.0 as u64) + ((enc_u64(
        e.1.len() as u64,
    ) + (proofs_enc + rest))));
    lemma_u64_round_trip(e.0.0 as u64, enc_u64(e.1.len() as u64) + (proofs_enc + rest));
    lemma_u64_round_trip(e.1.len() as u64, proofs_enc + rest);
    lemma_items_round_trip(e.1, rest);
    assert(Shard((e.0.0 as u64) as u32) == e.0);
}

proof fn lemma_entries_round_trip(entries: Seq<(Shard, Seq<u64>)>, rest: Seq<u8>)
    requires
        forall|i: int|
            0 <= i < entries.len() ==> (#[trigger] entries[i]).1.len()
                < 0x1_0000_0000_0000_0000,
    ensures
        dec_evidence_entries(enc_evidence_entries(entries) + rest, entries.len()) == Some(
            (entries, rest),
        ),
    decreases entries.len(),
{
    if entries.len() == 0 {
        assert(enc_evidence_entries(entries) + rest =~= rest);
        assert(entries =~= Seq::<(Shard, Seq<u64>)>::empty());
    } else {
        let tail = entries.skip(1);
        assert forall|i: int|
            0 <= i < tail.len() implies (#[trigger] tail[i]).1.len()
            < 0x1_0000_0000_0000_0000 by {
            assert(tail[i] == entries[i + 1]);
        }
        lemma_entries_round_trip(tail, rest);
        assert(enc_evidence_entries(entries) + rest =~= enc_evidence_entry(entries[0])
            + (enc_evidence_entries(tail) + rest));
        lemma_entry_round_trip(entries[0], enc_evidence_entries(tail) + rest);
        assert(seq![entries[0]] + tail =~= entries);
    }
}

/// The round trip law for evidence: decoding the canonical bytes of any
/// evidence record, whatever follows them, gives the record back with the
/// following bytes untouched — so re-persisting a decoded record stores
/// bit-identical contents.
pub proof fn theorem_evidence_round_trip(m: EvidenceModel, rest: Seq<u8>)
    requires
        m.entries.len() < 0x1_0000_0000_0000_0000,
        forall|i: int|
            0 <= i < m.entries.len() ==> (#[trigger] m.entries[i]).1.len()
                < 0x1_0000_0000_0000_0000,
    ensures
        dec_evidence(enc_evidence(m) + rest) == Some((m, rest)),
        dec_evidence_full(enc_evidence(m)) == Some(m),
{
    assert(enc_evidence(m) + rest =~= enc_u64(m.entries.len() as u64) + (enc_evidence_entries(
        m.entries,
    ) + rest));
    lemma_u64_round_trip(m.entries.len() as u64, enc_evidence_entries(m.entries) + rest);
    lemma_entries_round_trip(m.entries, rest);
    assert(enc_evidence(m) =~= enc_evidence(m) + Seq::<u8>::empty());
    lemma_u64_round_trip(
        m.entries.len() as u64,
        enc_evidence_entries(m.entries) + Seq::<u8>::empty(),
    );
    lemma_entries_round_trip(m.entries, Seq::<u8>::empty());
}

/// Reads `n` eight-byte integers at `pos`, exactly as the specification
/// decoder does.
fn read_u64_items(bytes: &Vec<u8>, pos: usize, n: u64) -> (r: Option<(Vec<u64>, usize)>)
    requires
        pos <= bytes@.len(),
    ensures
        match r {
            Some((vs, next)) => pos <= next <= bytes@.len() && dec_u64_items(
                bytes@.skip(pos as int),
                n as nat,
            ) == Some((vs@, bytes@.skip(next as int))),
            None => dec_u64_items(bytes@.skip(pos as int), n as nat) is None,
        },
    decreases n,
{
    if n == 0 {
        proof {
            assert(dec_u64_items(bytes@.skip(pos as int), 0) == Some(
                (Seq::<u64>::empty(), bytes@.skip(pos as int)),
            ));
        }
        return Some((Vec::new(), pos));
    }
    match read_u64(bytes, pos) {
        Some((v, next)) => {
            proof {
                assert(dec_u64_spec(bytes@.skip(pos as int)) == Some(
                    (v, bytes@.skip(next as int)),
                )) by {
                    assert(bytes@.skip(pos as int).len() >= 8);
                    assert(bytes@.skip(pos as int).skip(8) =~= bytes@.skip(next as int));
                }
            }
            match read_u64_items(bytes, next, n - 1) {
                Some((vs, next2)) => {
                    let mut out: Vec<u64> = Vec::new();
                    out.push(v);
                    let mut k: usize = 0;
                    while k < vs.len()
                        invariant
                            k <= vs@.len(),
                            out@ == seq![v] + vs@.take(k as int),
                        decreases vs@.len() - k,
                    {
                        proof {
                            assert((seq![v] + vs@.take(k as int)).push(vs@[k as int]) =~= seq![v]
                                + vs@.take(k as int + 1));
                        }
                        out.push(vs[k]);
                        k = k + 1;
                    }
                    proof {
                        assert(vs@.take(vs@.len() as int) =~= vs@);
                    }
                    Some((out, next2))
                },
                None => None,
            }
        },
        None => {
            proof {
                assert(dec_u64_spec(bytes@.skip(pos as int)) is None);
            }
            None
        },
    }
}

/// Reads an evidence record at `pos`, exactly as the specification
/// decoder does.
fn read_evidence(bytes: &Vec<u8>, pos: usize) -> (r: Option<(Evidence, usize)>)
    requires
        pos <= bytes@.len(),
    ensures
        match r {
            Some((e, next)) => pos <= next <= bytes@.len() && dec_evidence(
                bytes@.skip(pos as int),
            ) == Some((e.model(), bytes@.skip(next as int))),
            None => dec_evidence(bytes@.skip(pos as int)) is None,
        },
{
    let count = match read_u64(bytes, pos) {
        Some(t) => {
            proof {
                assert(bytes@.skip(pos as int).skip(8) =~= bytes@.skip(t.1 as int));
            }
            t
        },
        None => {
            return None;
        },
    };
    let (n, start) = count;
    let mut cursor: usize = start;
    let mut entries: Vec<(Shard, Vec<u64>)> = Vec::new();
    let mut parsed: u64 = 0;
    while parsed < n
        invariant
            parsed <= n,
            pos <= cursor,
            cursor <= bytes@.len(),
            entries@.len() == parsed,
            dec_evidence(bytes@.skip(pos as int)) == (match dec_evidence_entries(
                bytes@.skip(cursor as int),
                (n - parsed) as nat,
            ) {
                Some((es, rest)) => Some(
                    (
                        EvidenceModel {
                            entries: entries@.map_values(|en: (Shard, Vec<u64>)| (en.0, en.1@))
                                + es,
                        },
                        rest,
                    ),
                ),
                None => None::<(EvidenceModel, Seq<u8>)>,
            }),
        decreases n - parsed,
    {
        let shard_u = match read_u64(bytes, cursor) {
            Some(t) => t,
            None => {
                return None;
            },
        };
        proof {
            assert(bytes@.skip(cursor as int).skip(8) =~= bytes@.skip(shard_u.1 as int));
        }
        if shard_u.0 >= 0x1_0000_0000 {
            return None;
        }
        let shard = Shard(shard_u.0 as u32);
        let pcount = match read_u64(bytes, shard_u.1) {
            Some(t) => t,
            None => {
                return None;
            },
        };
        proof {
            assert(bytes@.skip(shard_u.1 as int).skip(8) =~= bytes@.skip(pcount.1 as int));
        }
        let proofs = match read_u64_items(bytes, pcount.1, pcount.0) {
            Some(t) => t,
            None => {
                return None;
            },
        };
        proof {
            assert(dec_evidence_entry(bytes@.skip(cursor as int)) == Some(
                ((shard, proofs.0@), bytes@.skip(proofs.1 as int)),
            ));
        }
        let ghost prev_entries = entries@;
        entries.push((shard, proofs.0));
        cursor = proofs.1;
        parsed = parsed + 1;
        proof {
            let mapped = entries@.map_values(|en: (Shard, Vec<u64>)| (en.0, en.1@));
            let prev_mapped = prev_entries.map_values(|en: (Shard, Vec<u64>)| (en.0, en.1@));
            assert(mapped =~= prev_mapped.push((shard, proofs.0@)));
            assert forall|es: Seq<(Shard, Seq<u64>)>, rest: Seq<u8>|
                dec_evidence_entries(bytes@.skip(cursor as int), (n - parsed) as nat) == Some(
                    (es, rest),
                ) implies prev_mapped + (seq![(shard, proofs.0@)] + es) =~= mapped + es by {
            }
        }
    }
    proof {
        assert(dec_evidence_entries(bytes@.skip(cursor as int), 0) == Some(
            (Seq::<(Shard, Seq<u64>)>::empty(), bytes@.skip(cursor as int)),
        ));
        let mapped = entries@.map_values(|en: (Shard, Vec<u64>)| (en.0, en.1@));
        assert(mapped + Seq::<(Shard, Seq<u64>)>::empty() =~= mapped);
    }
    let result = Evidence { entries };
    proof {
        let mapped = result.entries@.map_values(|en: (Shard, Vec<u64>)| (en.0, en.1@));
        assert(EvidenceModel { entries: mapped + Seq::<(Shard, Seq<u64>)>::empty() } =~= EvidenceModel {
            entries: mapped,
        });
        assert(result.model() == EvidenceModel { entries: mapped });
        assert(dec_evidence(bytes@.skip(pos as int)) == Some(
            (result.model(), bytes@.skip(cursor as int)),
        ));
    }
    Some((result, cursor))
}

/// Parses evidence from the whole buffer: the record whose canonical
/// bytes the buffer holds, or `None` when the buffer is not exactly one
/// canonical evidence record.
pub fn decode_evidence(bytes: &Vec<u8>) -> (r: Option<Evidence>)
    ensures
        match r {
            Some(e) => dec_evidence_full(bytes@) == Some(e.model()),
            None => dec_evidence_full(bytes@) is None,
        },
{
    proof {
        assert(bytes@.skip(0) =~= bytes@);
    }
    match read_evidence(bytes, 0) {
        Some((e, next)) => {
            if next == bytes.len() {
                proof {
                    assert(bytes@.skip(next as int).len() == 0);
                }
                Some(e)
            } else {
                proof {
                    assert(bytes@.skip(next as int).len() != 0);
                }
                None
            }
        },
        None => None,
    }
}

/// A length-prefixed byte string./// Decoding inverts encoding for eight-byte integers, whatever follows:
/// the crate-internal face of the round trip for composite codecs.
pub(crate) proof fn lemma_u64_prefix(v: u64, rest: Seq<u8>)
    ensures
        dec_u64_spec(enc_u64(v) + rest) == Some((v, rest)),
{
    lemma_u64_round_trip(v, rest);
}

/// A length-prefixed byte string.
pub open spec fn enc_bytes(s: Seq<u8>) -> Seq<u8> {
    enc_u64(s.len() as u64) + s
}

/// Reads a length-prefixed byte string from the front of `s`.
pub open spec fn dec_bytes(s: Seq<u8>) -> Option<(Seq<u8>, Seq<u8>)> {
    match dec_u64_spec(s) {
        Some((len, rest)) => if rest.len() >= len {
            Some((rest.take(len as int), rest.skip(len as int)))
        } else {
            None
        },
        None => None,
    }
}

proof fn lemma_bytes_round_trip(b: Seq<u8>, rest: Seq<u8>)
    requires
        b.len() < 0x1_0000_0000_0000_0000,
    ensures
        dec_bytes(enc_bytes(b) + rest) == Some((b, rest)),
{
    assert(enc_bytes(b) + rest =~= enc_u64(b.len() as u64) + (b + rest));
    lemma_u64_round_trip(b.len() as u64, b + rest);
    assert((b + rest).take(b.len() as int) =~= b);
    assert((b + rest).skip(b.len() as int) =~= rest);
}

/// Decoding inverts encoding for byte strings, whatever follows.
pub(crate) proof fn lemma_bytes_prefix(b: Seq<u8>, rest: Seq<u8>)
    requires
        b.len() < 0x1_0000_0000_0000_0000,
    ensures
        dec_bytes(enc_bytes(b) + rest) == Some((b, rest)),
{
    lemma_bytes_round_trip(b, rest);
}

/// Appends a length-prefixed byte string.
pub(crate) fn push_bytes(out: &mut Vec<u8>, b: &Vec<u8>)
    ensures
        final(out)@ == old(out)@ + enc_bytes(b@),
{
    push_u64(out, b.len() as u64);
    let ghost base = out@;
    let mut i: usize = 0;
    while i < b.len()
        invariant
            i <= b@.len(),
            out@ == base + b@.take(i as int),
        decreases b@.len() - i,
    {
        proof {
            assert((base + b@.take(i as int)).push(b@[i as int]) =~= base + b@.take(i as int + 1));
        }
        out.push(b[i]);
        i = i + 1;
    }
    proof {
        assert(b@.take(b@.len() as int) =~= b@);
        assert(old(out)@ + enc_bytes(b@) =~= base + b@);
    }
}

/// Reads a length-prefixed byte string at `pos`.
pub(crate) fn read_bytes(bytes: &Vec<u8>, pos: usize) -> (r: Option<(Vec<u8>, usize)>)
    requires
        pos <= bytes@.len(),
    ensures
        match r {
            Some((b, next)) => pos <= next <= bytes@.len() && dec_bytes(bytes@.skip(pos as int))
                == Some((b@, bytes@.skip(next as int))),
            None => dec_bytes(bytes@.skip(pos as int)) is None,
        },
{
    match read_u64(bytes, pos) {
        Some((len, next)) => {
            proof {
                assert(bytes@.skip(pos as int).skip(8) =~= bytes@.skip(next as int));
            }
            if len > (bytes.len() - next) as u64 {
                return None;
            }
            let len_us: usize = len as usize;
            let mut b: Vec<u8> = Vec::new();
            let mut i: usize = 0;
            while i < len_us
                invariant
                    next + len_us <= bytes@.len(),
                    bytes@.len() <= usize::MAX,
                    i <= len_us,
                    b@ == bytes@.skip(next as int).take(len_us as int).take(i as int),
                decreases len_us - i,
            {
                proof {
                    let full = bytes@.skip(next as int).take(len_us as int);
                    assert(full.take(i as int).push(full[i as int]) =~= full.take(i as int + 1));
                    assert(full[i as int] == bytes@[next + i]);
                }
                b.push(bytes[next + i]);
                i = i + 1;
            }
            proof {
                let full = bytes@.skip(next as int).take(len_us as int);
                assert(full.take(full.len() as int) =~= full);
                assert(bytes@.skip(next as int).skip(len_us as int) =~= bytes@.skip(
                    (next + len_us) as int,
                ));
            }
            Some((b, next + len_us))
        },
        None => None,
    }
}

/// One argument: a tag byte, then the payload.
pub open spec fn enc_arg(a: ArgModel) -> Seq<u8> {
    match a {
        ArgModel::Literal(b) => seq![0u8] + enc_bytes(b),
        ArgModel::Variable(b) => seq![1u8] + enc_bytes(b),
    }
}

pub open spec fn dec_arg(s: Seq<u8>) -> Option<(ArgModel, Seq<u8>)> {
    if s.len() < 1 {
        None
    } else if s[0] == 0 {
        match dec_bytes(s.skip(1)) {
            Some((b, rest)) => Some((ArgModel::Literal(b), rest)),
            None => None,
        }
    } else if s[0] == 1 {
        match dec_bytes(s.skip(1)) {
            Some((b, rest)) => Some((ArgModel::Variable(b), rest)),
            None => None,
        }
    } else {
        None
    }
}

pub open spec fn enc_args_items(args: Seq<ArgModel>) -> Seq<u8>
    decreases args.len(),
{
    if args.len() == 0 {
        Seq::empty()
    } else {
        enc_arg(args[0]) + enc_args_items(args.skip(1))
    }
}

pub open spec fn enc_args(args: Seq<ArgModel>) -> Seq<u8> {
    enc_u64(args.len() as u64) + enc_args_items(args)
}

pub open spec fn dec_args_items(s: Seq<u8>, n: nat) -> Option<(Seq<ArgModel>, Seq<u8>)>
    decreases n,
{
    if n == 0 {
        Some((Seq::empty(), s))
    } else {
        match dec_arg(s) {
            Some((a, rest)) => match dec_args_items(rest, (n - 1) as nat) {
                Some((others, rest2)) => Some((seq![a] + others, rest2)),
                None => None,
            },
            None => None,
        }
    }
}

pub open spec fn dec_args(s: Seq<u8>) -> Option<(Seq<ArgModel>, Seq<u8>)> {
    match dec_u64_spec(s) {
        Some((n, rest)) => dec_args_items(rest, n as nat),
        None => None,
    }
}

/// Payload lengths small enough for the length prefixes.
pub open spec fn arg_bounded(a: ArgModel) -> bool {
    match a {
        ArgModel::Literal(b) => b.len() < 0x1_0000_0000_0000_0000,
        ArgModel::Variable(b) => b.len() < 0x1_0000_0000_0000_0000,
    }
}

proof fn lemma_arg_round_trip(a: ArgModel, rest: Seq<u8>)
    requires
        arg_bounded(a),
    ensures
        dec_arg(enc_arg(a) + rest) == Some((a, rest)),
{
    match a {
        ArgModel::Literal(b) => {
            assert(enc_arg(a) + rest =~= seq![0u8] + (enc_bytes(b) + rest));
            assert((enc_arg(a) + rest)[0] == 0u8);
            assert((enc_arg(a) + rest).skip(1) =~= enc_bytes(b) + rest);
            lemma_bytes_round_trip(b, rest);
        },
        ArgModel::Variable(b) => {
            assert(enc_arg(a) + rest =~= seq![1u8] + (enc_bytes(b) + rest));
            assert((enc_arg(a) + rest)[0] == 1u8);
            assert((enc_arg(a) + rest).skip(1) =~= enc_bytes(b) + rest);
            lemma_bytes_round_trip(b, rest);
        },
    }
}

proof fn lemma_args_items_round_trip(args: Seq<ArgModel>, rest: Seq<u8>)
    requires
        forall|i: int| 0 <= i < args.len() ==> arg_bounded(#[trigger] args[i]),
    ensures
        dec_args_items(enc_args_items(args) + rest, args.len()) == Some((args, rest)),
    decreases args.len(),
{
    if args.len() == 0 {
        assert(enc_args_items(args) + rest =~= rest);
        assert(args =~= Seq::<ArgModel>::empty());
    } else {
        let tail = args.skip(1);
        assert forall|i: int| 0 <= i < tail.len() implies arg_bounded(#[trigger] tail[i]) by {
            assert(tail[i] == args[i + 1]);
        }
        lemma_args_items_round_trip(tail, rest);
        assert(enc_args_items(args) + rest =~= enc_arg(args[0]) + (enc_args_items(tail) + rest));
        lemma_arg_round_trip(args[0], enc_args_items(tail) + rest);
        assert(seq![args[0]] + tail =~= args);
    }
}

proof fn lemma_args_round_trip(args: Seq<ArgModel>, rest: Seq<u8>)
    requires
        args.len() < 0x1_0000_0000_0000_0000,
        forall|i: int| 0 <= i < args.len() ==> arg_bounded(#[trigger] args[i]),
    ensures
        dec_args(enc_args(args) + rest) == Some((args, rest)),
{
    assert(enc_args(args) + rest =~= enc_u64(args.len() as u64) + (enc_args_items(args) + rest));
    lemma_u64_round_trip(args.len() as u64, enc_args_items(args) + rest);
    lemma_args_items_round_trip(args, rest);
}

/// One instruction: a tag byte, then the variant's fields.
#[verifier::opaque]
pub open spec fn enc_instruction(i: InstructionModel) -> Seq<u8> {
    match i {
        InstructionModel::CallFunction { template_address, function, args } => seq![0u8]
            + enc_u64(template_address) + enc_bytes(function) + enc_args(args),
        InstructionModel::CallMethod { component_address, method, args } => seq![1u8] + enc_u64(
            component_address,
        ) + enc_bytes(method) + enc_args(args),
        InstructionModel::PutLastInstructionOutputOnWorkspace { key } => seq![2u8] + enc_bytes(
            key,
        ),
        InstructionModel::ClaimBurn { commitment_address, range_proof, proof_of_knowledge } => seq![3u8]
            + enc_bytes(commitment_address) + enc_bytes(range_proof) + enc_bytes(
            proof_of_knowledge,
        ),
    }
}

#[verifier::opaque]
pub open spec fn dec_instruction(s: Seq<u8>) -> Option<(InstructionModel, Seq<u8>)> {
    if s.len() < 1 {
        None
    } else if s[0] == 0 {
        match dec_u64_spec(s.skip(1)) {
            Some((template_address, r1)) => match dec_bytes(r1) {
                Some((function, r2)) => match dec_args(r2) {
                    Some((args, r3)) => Some(
                        (
                            InstructionModel::CallFunction { template_address, function, args },
                            r3,
                        ),
                    ),
                    None => None,
                },
                None => None,
            },
            None => None,
        }
    } else if s[0] == 1 {
        match dec_u64_spec(s.skip(1)) {
            Some((component_address, r1)) => match dec_bytes(r1) {
                Some((method, r2)) => match dec_args(r2) {
                    Some((args, r3)) => Some(
                        (InstructionModel::CallMethod { component_address, method, args }, r3),
                    ),
                    None => None,
                },
                None => None,
            },
            None => None,
        }
    } else if s[0] == 2 {
        match dec_bytes(s.skip(1)) {
            Some((key, r1)) => Some(
                (InstructionModel::PutLastInstructionOutputOnWorkspace { key }, r1),
            ),
            None => None,
        }
    } else if s[0] == 3 {
        match dec_bytes(s.skip(1)) {
            Some((commitment_address, r1)) => match dec_bytes(r1) {
                Some((range_proof, r2)) => match dec_bytes(r2) {
                    Some((proof_of_knowledge, r3)) => Some(
                        (
                            InstructionModel::ClaimBurn {
                                commitment_address,
                                range_proof,
                                proof_of_knowledge,
                            },
                            r3,
                        ),
                    ),
                    None => None,
                },
                None => None,
            },
            None => None,
        }
    } else {
        None
    }
}

/// Field lengths small enough for the length prefixes.
pub open spec fn instruction_bounded(i: InstructionModel) -> bool {
    match i {
        InstructionModel::CallFunction { function, args, .. } => function.len()
            < 0x1_0000_0000_0000_0000 && args.len() < 0x1_0000_0000_0000_0000 && (forall|k: int|
            0 <= k < args.len() ==> arg_bounded(#[trigger] args[k])),
        InstructionModel::CallMethod { method, args, .. } => method.len()
            < 0x1_0000_0000_0000_0000 && args.len() < 0x1_0000_0000_0000_0000 && (forall|k: int|
            0 <= k < args.len() ==> arg_bounded(#[trigger] args[k])),
        InstructionModel::PutLastInstructionOutputOnWorkspace { key } => key.len()
            < 0x1_0000_0000_0000_0000,
        InstructionModel::ClaimBurn { commitment_address, range_proof, proof_of_knowledge } =>
            commitment_address.len() < 0x1_0000_0000_0000_0000 && range_proof.len()
            < 0x1_0000_0000_0000_0000 && proof_of_knowledge.len() < 0x1_0000_0000_0000_0000,
    }
}

proof fn lemma_call_function_round_trip(
    template_address: u64,
    function: Seq<u8>,
    args: Seq<ArgModel>,
    rest: Seq<u8>,
)
    requires
        instruction_bounded(InstructionModel::CallFunction { template_address, function, args }),
    ensures
        dec_instruction(
            enc_instruction(InstructionModel::CallFunction { template_address, function, args })
                + rest,
        ) == Some(
            (InstructionModel::CallFunction { template_address, function, args }, rest),
        ),
{
    reveal(enc_instruction);
    reveal(dec_instruction);
    let i = InstructionModel::CallFunction { template_address, function, args };
    let tail = enc_u64(template_address) + enc_bytes(function) + enc_args(args);
    assert(enc_instruction(i) + rest =~= seq![0u8] + (tail + rest));
    assert((enc_instruction(i) + rest)[0] == 0u8);
    assert((enc_instruction(i) + rest).skip(1) =~= tail + rest);
    assert(tail + rest =~= enc_u64(template_address) + (enc_bytes(function) + (enc_args(args)
        + rest)));
    lemma_u64_round_trip(template_address, enc_bytes(function) + (enc_args(args) + rest));
    lemma_bytes_round_trip(function, enc_args(args) + rest);
    lemma_args_round_trip(args, rest);
}

proof fn lemma_call_method_round_trip(
    component_address: u64,
    method: Seq<u8>,
    args: Seq<ArgModel>,
    rest: Seq<u8>,
)
    requires
        instruction_bounded(InstructionModel::CallMethod { component_address, method, args }),
    ensures
        dec_instruction(
            enc_instruction(InstructionModel::CallMethod { component_address, method, args })
                + rest,
        ) == Some((InstructionModel::CallMethod { component_address, method, args }, rest)),
{
    reveal(enc_instruction);
    reveal(dec_instruction);
    let i = InstructionModel::CallMethod { component_address, method, args };
    let tail = enc_u64(component_address) + enc_bytes(method) + enc_args(args);
    assert(enc_instruction(i) + rest =~= seq![1u8] + (tail + rest));
    assert((enc_instruction(i) + rest)[0] == 1u8);
    assert((enc_instruction(i) + rest).skip(1) =~= tail + rest);
    assert(tail + rest =~= enc_u64(component_address) + (enc_bytes(method) + (enc_args(args)
        + rest)));
    lemma_u64_round_trip(component_address, enc_bytes(method) + (enc_args(args) + rest));
    lemma_bytes_round_trip(method, enc_args(args) + rest);
    lemma_args_round_trip(args, rest);
}

proof fn lemma_claim_burn_round_trip(
    commitment_address: Seq<u8>,
    range_proof: Seq<u8>,
    proof_of_knowledge: Seq<u8>,
    rest: Seq<u8>,
)
    requires
        instruction_bounded(
            InstructionModel::ClaimBurn { commitment_address, range_proof, proof_of_knowledge },
        ),
    ensures
        dec_instruction(
            enc_instruction(
                InstructionModel::ClaimBurn {
                    commitment_address,
                    range_proof,
                    proof_of_knowledge,
                },
            ) + rest,
        ) == Some(
            (
                InstructionModel::ClaimBurn {
                    commitment_address,
                    range_proof,
                    proof_of_knowledge,
                },
                rest,
            ),
        ),
{
    reveal(enc_instruction);
    reveal(dec_instruction);
    let i = InstructionModel::ClaimBurn { commitment_address, range_proof, proof_of_knowledge };
    let tail = enc_bytes(commitment_address) + enc_bytes(range_proof) + enc_bytes(
        proof_of_knowledge,
    );
    assert(enc_instruction(i) + rest =~= seq![3u8] + (tail + rest));
    assert((enc_instruction(i) + rest)[0] == 3u8);
    assert((enc_instruction(i) + rest).skip(1) =~= tail + rest);
    assert(tail + rest =~= enc_bytes(commitment_address) + (enc_bytes(range_proof) + (enc_bytes(
        proof_of_knowledge,
    ) + rest)));
    lemma_bytes_round_trip(
        commitment_address,
        enc_bytes(range_proof) + (enc_bytes(proof_of_knowledge) + rest),
    );
    lemma_bytes_round_trip(range_proof, enc_bytes(proof_of_knowledge) + rest);
    lemma_bytes_round_trip(proof_of_knowledge, rest);
}

proof fn lemma_instruction_round_trip(i: InstructionModel, rest: Seq<u8>)
    requires
        instruction_bounded(i),
    ensures
        dec_instruction(enc_instruction(i) + rest) == Some((i, rest)),
{
    match i {
        InstructionModel::CallFunction { template_address, function, args } => {
            lemma_call_function_round_trip(template_address, function, args, rest);
        },
        InstructionModel::CallMethod { component_address, method, args } => {
            lemma_call_method_round_trip(component_address, method, args, rest);
        },
        InstructionModel::PutLastInstructionOutputOnWorkspace { key } => {
            reveal(enc_instruction);
            reveal(dec_instruction);
            assert(enc_instruction(i) + rest =~= seq![2u8] + (enc_bytes(key) + rest));
            assert((enc_instruction(i) + rest)[0] == 2u8);
            assert((enc_instruction(i) + rest).skip(1) =~= enc_bytes(key) + rest);
            lemma_bytes_round_trip(key, rest);
        },
        InstructionModel::ClaimBurn { commitment_address, range_proof, proof_of_knowledge } => {
            lemma_claim_burn_round_trip(
                commitment_address,
                range_proof,
                proof_of_knowledge,
                rest,
            );
        },
    }
}

pub open spec fn enc_instr_items(is: Seq<InstructionModel>) -> Seq<u8>
    decreases is.len(),
{
    if is.len() == 0 {
        Seq::empty()
    } else {
        enc_instruction(is[0]) + enc_instr_items(is.skip(1))
    }
}

pub open spec fn enc_instr_list(is: Seq<InstructionModel>) -> Seq<u8> {
    enc_u64(is.len() as u64) + enc_instr_items(is)
}

pub open spec fn dec_instr_items(s: Seq<u8>, n: nat) -> Option<(Seq<InstructionModel>, Seq<u8>)>
    decreases n,
{
    if n == 0 {
        Some((Seq::empty(), s))
    } else {
        match dec_instruction(s) {
            Some((i, rest)) => match dec_instr_items(rest, (n - 1) as nat) {
                Some((others, rest2)) => Some((seq![i] + others, rest2)),
                None => None,
            },
            None => None,
        }
    }
}

pub open spec fn dec_instr_list(s: Seq<u8>) -> Option<(Seq<InstructionModel>, Seq<u8>)> {
    match dec_u64_spec(s) {
        Some((n, rest)) => dec_instr_items(rest, n as nat),
        None => None,
    }
}

#[verifier::spinoff_prover]
proof fn lemma_instr_items_round_trip(is: Seq<InstructionModel>, rest: Seq<u8>)
    requires
        forall|k: int| 0 <= k < is.len() ==> instruction_bounded(#[trigger] is[k]),
    ensures
        dec_instr_items(enc_instr_items(is) + rest, is.len()) == Some((is, rest)),
    decreases is.len(),
{
    if is.len() == 0 {
        assert(enc_instr_items(is) + rest =~= rest);
        assert(is =~= Seq::<InstructionModel>::empty());
    } else {
        let tail = is.skip(1);
        assert forall|k: int| 0 <= k < tail.len() implies instruction_bounded(
            #[trigger] tail[k],
        ) by {
            assert(tail[k] == is[k + 1]);
        }
        lemma_instr_items_round_trip(tail, rest);
        assert(enc_instr_items(is) + rest =~= enc_instruction(is[0]) + (enc_instr_items(tail)
            + rest));
        lemma_instruction_round_trip(is[0], enc_instr_items(tail) + rest);
        assert(seq![is[0]] + tail =~= is);
    }
}

proof fn lemma_instr_list_round_trip(is: Seq<InstructionModel>, rest: Seq<u8>)
    requires
        is.len() < 0x1_0000_0000_0000_0000,
        forall|k: int| 0 <= k < is.len() ==> instruction_bounded(#[trigger] is[k]),
    ensures
        dec_instr_list(enc_instr_list(is) + rest) == Some((is, rest)),
{
    assert(enc_instr_list(is) + rest =~= enc_u64(is.len() as u64) + (enc_instr_items(is) + rest));
    lemma_u64_round_trip(is.len() as u64, enc_instr_items(is) + rest);
    lemma_instr_items_round_trip(is, rest);
}

/// A length-prefixed shard list, each shard as an eight-byte integer.
pub open spec fn enc_shard_items(ss: Seq<Shard>) -> Seq<u8>
    decreases ss.len(),
{
    if ss.len() == 0 {
        Seq::empty()
    } else {
        enc_u64(ss[0].0 as u64) + enc_shard_items(ss.skip(1))
    }
}

pub open spec fn enc_shards(ss: Seq<Shard>) -> Seq<u8> {
    enc_u64(ss.len() as u64) + enc_shard_items(ss)
}

pub open spec fn dec_shard_items(s: Seq<u8>, n: nat) -> Option<(Seq<Shard>, Seq<u8>)>
    decreases n,
{
    if n == 0 {
        Some((Seq::empty(), s))
    } else {
        match dec_u64_spec(s) {
            Some((v, rest)) => if v < 0x1_0000_0000 {
                match dec_shard_items(rest, (n - 1) as nat) {
                    Some((others, rest2)) => Some((seq![Shard(v as u32)] + others, rest2)),
                    None => None,
                }
            } else {
                None
            },
            None => None,
        }
    }
}

pub open spec fn dec_shards(s: Seq<u8>) -> Option<(Seq<Shard>, Seq<u8>)> {
    match dec_u64_spec(s) {
        Some((n, rest)) => dec_shard_items(rest, n as nat),
        None => None,
    }
}

proof fn lemma_shard_items_round_trip(ss: Seq<Shard>, rest: Seq<u8>)
    ensures
        dec_shard_items(enc_shard_items(ss) + rest, ss.len()) == Some((ss, rest)),
    decreases ss.len(),
{
    if ss.len() == 0 {
        assert(enc_shard_items(ss) + rest =~= rest);
        assert(ss =~= Seq::<Shard>::empty());
    } else {
        let tail = ss.skip(1);
        lemma_shard_items_round_trip(tail, rest);
        assert(enc_shard_items(ss) + rest =~= enc_u64(ss[0].0 as u64) + (enc_shard_items(tail)
            + rest));
        lemma_u64_round_trip(ss[0].0 as u64, enc_shard_items(tail) + rest);
        assert(Shard(((ss[0].0 as u64)) as u32) == ss[0]);
        assert(seq![ss[0]] + tail =~= ss);
    }
}

proof fn lemma_shards_round_trip(ss: Seq<Shard>, rest: Seq<u8>)
    requires
        ss.len() < 0x1_0000_0000_0000_0000,
    ensures
        dec_shards(enc_shards(ss) + rest) == Some((ss, rest)),
{
    assert(enc_shards(ss) + rest =~= enc_u64(ss.len() as u64) + (enc_shard_items(ss) + rest));
    lemma_u64_round_trip(ss.len() as u64, enc_shard_items(ss) + rest);
    lemma_shard_items_round_trip(ss, rest);
}

/// The canonical bytes of a transaction.
pub open spec fn enc_transaction(m: TransactionModel) -> Seq<u8> {
    enc_u64(m.hash.0) + enc_instr_list(m.fee_instructions) + enc_instr_list(m.instructions)
        + enc_bytes(m.signature) + enc_bytes(m.sender_public_key) + enc_shards(m.inputs)
        + enc_shards(m.input_refs) + enc_shards(m.outputs)
}

/// Reads a transaction from the front of `s`.
pub open spec fn dec_transaction(s: Seq<u8>) -> Option<(TransactionModel, Seq<u8>)> {
    match dec_u64_spec(s) {
        Some((hash, r1)) => match dec_instr_list(r1) {
            Some((fee_instructions, r2)) => match dec_instr_list(r2) {
                Some((instructions, r3)) => match dec_bytes(r3) {
                    Some((signature, r4)) => match dec_bytes(r4) {
                        Some((sender_public_key, r5)) => match dec_shards(r5) {
                            Some((inputs, r6)) => match dec_shards(r6) {
                                Some((input_refs, r7)) => match dec_shards(r7) {
                                    Some((outputs, r8)) => if shard_sets_wf(
                                        inputs,
                                        input_refs,
                                        outputs,
                                    ) {
                                        Some(
                                            (
                                                TransactionModel {
                                                    hash: TransactionId(hash),
                                                    fee_instructions,
                                                    instructions,
                                                    signature,
                                                    sender_public_key,
                                                    inputs,
                                                    input_refs,
                                                    outputs,
                                                },
                                                r8,
                                            ),
                                        )
                                    } else {
                                        None
                                    },
                                    None => None,
                                },
                                None => None,
                            },
                            None => None,
                        },
                        None => None,
                    },
                    None => None,
                },
                None => None,
            },
            None => None,
        },
        None => None,
    }
}

/// Every list and byte string in the transaction fits its length prefix.
pub open spec fn transaction_bounded(m: TransactionModel) -> bool {
    &&& m.fee_instructions.len() < 0x1_0000_0000_0000_0000
    &&& m.instructions.len() < 0x1_0000_0000_0000_0000
    &&& forall|k: int|
        0 <= k < m.fee_instructions.len() ==> instruction_bounded(
            #[trigger] m.fee_instructions[k],
        )
    &&& forall|k: int|
        0 <= k < m.instructions.len() ==> instruction_bounded(#[trigger] m.instructions[k])
    &&& m.signature.len() < 0x1_0000_0000_0000_0000
    &&& m.sender_public_key.len() < 0x1_0000_0000_0000_0000
    &&& m.inputs.len() < 0x1_0000_0000_0000_0000
    &&& m.input_refs.len() < 0x1_0000_0000_0000_0000
    &&& m.outputs.len() < 0x1_0000_0000_0000_0000
}

/// The round trip law for transactions: decoding the canonical bytes of
/// any well-formed transaction, whatever follows them, gives the
/// transaction back.
pub proof fn theorem_transaction_round_trip(m: TransactionModel, rest: Seq<u8>)
    requires
        transaction_bounded(m),
        shard_sets_wf(m.inputs, m.input_refs, m.outputs),
    ensures
        dec_transaction(enc_transaction(m) + rest) == Some((m, rest)),
{
    let t8 = rest;
    let t7 = enc_shards(m.outputs) + t8;
    let t6 = enc_shards(m.input_refs) + t7;
    let t5 = enc_shards(m.inputs) + t6;
    let t4 = enc_bytes(m.sender_public_key) + t5;
    let t3 = enc_bytes(m.signature) + t4;
    let t2 = enc_instr_list(m.instructions) + t3;
    let t1 = enc_instr_list(m.fee_instructions) + t2;
    assert(enc_transaction(m) + rest =~= enc_u64(m.hash.0) + t1);
    lemma_u64_round_trip(m.hash.0, t1);
    lemma_instr_list_round_trip(m.fee_instructions, t2);
    lemma_instr_list_round_trip(m.instructions, t3);
    lemma_bytes_round_trip(m.signature, t4);
    lemma_bytes_round_trip(m.sender_public_key, t5);
    lemma_shards_round_trip(m.inputs, t6);
    lemma_shards_round_trip(m.input_refs, t7);
    lemma_shards_round_trip(m.outputs, t8);
    assert(TransactionId(m.hash.0) == m.hash);
}

/// Appends raw bytes with no framing.
fn extend_bytes(out: &mut Vec<u8>, b: &Vec<u8>)
    ensures
        final(out)@ == old(out)@ + b@,
{
    let ghost base = out@;
    let mut i: usize = 0;
    while i < b.len()
        invariant
            i <= b@.len(),
            out@ == base + b@.take(i as int),
        decreases b@.len() - i,
    {
        proof {
            assert((base + b@.take(i as int)).push(b@[i as int]) =~= base + b@.take(i as int + 1));
        }
        out.push(b[i]);
        i = i + 1;
    }
    proof {
        assert(b@.take(b@.len() as int) =~= b@);
    }
}

/// Reads the byte at `pos`.
fn read_u8(bytes: &Vec<u8>, pos: usize) -> (r: Option<(u8, usize)>)
    requires
        pos <= bytes@.len(),
    ensures
        match r {
            Some((v, next)) => bytes@.len() - pos >= 1 && next == pos + 1 && v == bytes@.skip(
                pos as int,
            )[0],
            None => bytes@.len() - pos < 1,
        },
{
    if pos < bytes.len() {
        Some((bytes[pos], pos + 1))
    } else {
        None
    }
}

/// Appends one argument's canonical bytes.
fn encode_arg(out: &mut Vec<u8>, a: &Arg)
    ensures
        final(out)@ == old(out)@ + enc_arg(a.model()),
{
    match a {
        Arg::Literal(b) => {
            out.push(0);
            proof {
                assert(old(out)@.push(0u8) =~= old(out)@ + seq![0u8]);
            }
            push_bytes(out, b);
            proof {
                assert(old(out)@ + seq![0u8] + enc_bytes(b@) =~= old(out)@ + enc_arg(a.model()));
            }
        },
        Arg::Variable(b) => {
            out.push(1);
            proof {
                assert(old(out)@.push(1u8) =~= old(out)@ + seq![1u8]);
            }
            push_bytes(out, b);
            proof {
                assert(old(out)@ + seq![1u8] + enc_bytes(b@) =~= old(out)@ + enc_arg(a.model()));
            }
        },
    }
}

/// Appends the canonical bytes of the arguments from index `i` on.
fn encode_args_from(out: &mut Vec<u8>, args: &Vec<Arg>, i: usize)
    requires
        i <= args@.len(),
    ensures
        final(out)@ == old(out)@ + enc_args_items(args_model(args@).skip(i as int)),
    decreases args@.len() - i,
{
    let ghost s = args_model(args@);
    if i == args.len() {
        proof {
            assert(s.skip(i as int).len() == 0);
            assert(enc_args_items(s.skip(i as int)) =~= Seq::<u8>::empty());
            assert(old(out)@ + Seq::<u8>::empty() =~= old(out)@);
        }
    } else {
        encode_arg(out, &args[i]);
        encode_args_from(out, args, i + 1);
        proof {
            assert(s.skip(i as int)[0] == args@[i as int].model());
            assert(s.skip(i as int).skip(1) =~= s.skip(i as int + 1));
            assert(old(out)@ + enc_arg(args@[i as int].model()) + enc_args_items(
                s.skip(i as int + 1),
            ) =~= old(out)@ + enc_args_items(s.skip(i as int)));
        }
    }
}

/// Appends a length-prefixed argument list.
fn encode_args(out: &mut Vec<u8>, args: &Vec<Arg>)
    ensures
        final(out)@ == old(out)@ + enc_args(args_model(args@)),
{
    push_u64(out, args.len() as u64);
    encode_args_from(out, args, 0);
    proof {
        assert(args_model(args@).skip(0) =~= args_model(args@));
        assert(old(out)@ + enc_u64(args@.len() as u64) + enc_args_items(args_model(args@))
            =~= old(out)@ + enc_args(args_model(args@)));
    }
}

/// Appends one instruction's canonical bytes.
fn encode_instruction(out: &mut Vec<u8>, ins: &Instruction)
    ensures
        final(out)@ == old(out)@ + enc_instruction(ins.model()),
{
    proof {
        reveal(enc_instruction);
    }
    match ins {
        Instruction::CallFunction { template_address, function, args } => {
            out.push(0);
            proof {
                assert(old(out)@.push(0u8) =~= old(out)@ + seq![0u8]);
            }
            push_u64(out, *template_address);
            push_bytes(out, function);
            encode_args(out, args);
            proof {
                assert(old(out)@ + seq![0u8] + enc_u64(*template_address) + enc_bytes(function@)
                    + enc_args(args_model(args@)) =~= old(out)@ + enc_instruction(ins.model()));
            }
        },
        Instruction::CallMethod { component_address, method, args } => {
            out.push(1);
            proof {
                assert(old(out)@.push(1u8) =~= old(out)@ + seq![1u8]);
            }
            push_u64(out, *component_address);
            push_bytes(out, method);
            encode_args(out, args);
            proof {
                assert(old(out)@ + seq![1u8] + enc_u64(*component_address) + enc_bytes(method@)
                    + enc_args(args_model(args@)) =~= old(out)@ + enc_instruction(ins.model()));
            }
        },
        Instruction::PutLastInstructionOutputOnWorkspace { key } => {
            out.push(2);
            proof {
                assert(old(out)@.push(2u8) =~= old(out)@ + seq![2u8]);
            }
            push_bytes(out, key);
            proof {
                assert(old(out)@ + seq![2u8] + enc_bytes(key@) =~= old(out)@ + enc_instruction(
                    ins.model(),
                ));
            }
        },
        Instruction::ClaimBurn { commitment_address, range_proof, proof_of_knowledge } => {
            out.push(3);
            proof {
                assert(old(out)@.push(3u8) =~= old(out)@ + seq![3u8]);
            }
            push_bytes(out, commitment_address);
            push_bytes(out, range_proof);
            push_bytes(out, proof_of_knowledge);
            proof {
                assert(old(out)@ + seq![3u8] + enc_bytes(commitment_address@) + enc_bytes(
                    range_proof@,
                ) + enc_bytes(proof_of_knowledge@) =~= old(out)@ + enc_instruction(ins.model()));
            }
        },
    }
}

/// Appends the canonical bytes of the instructions from index `i` on.
fn encode_instrs_from(out: &mut Vec<u8>, instrs: &Vec<Instruction>, i: usize)
    requires
        i <= instrs@.len(),
    ensures
        final(out)@ == old(out)@ + enc_instr_items(instructions_model(instrs@).skip(i as int)),
    decreases instrs@.len() - i,
{
    let ghost s = instructions_model(instrs@);
    if i == instrs.len() {
        proof {
            assert(s.skip(i as int).len() == 0);
            assert(enc_instr_items(s.skip(i as int)) =~= Seq::<u8>::empty());
            assert(old(out)@ + Seq::<u8>::empty() =~= old(out)@);
        }
    } else {
        encode_instruction(out, &instrs[i]);
        encode_instrs_from(out, instrs, i + 1);
        proof {
            assert(s.skip(i as int)[0] == instrs@[i as int].model());
            assert(s.skip(i as int).skip(1) =~= s.skip(i as int + 1));
            assert(old(out)@ + enc_instruction(instrs@[i as int].model()) + enc_instr_items(
                s.skip(i as int + 1),
            ) =~= old(out)@ + enc_instr_items(s.skip(i as int)));
        }
    }
}

/// Appends a length-prefixed instruction list.
fn encode_instr_list(out: &mut Vec<u8>, instrs: &Vec<Instruction>)
    ensures
        final(out)@ == old(out)@ + enc_instr_list(instructions_model(instrs@)),
{
    push_u64(out, instrs.len() as u64);
    encode_instrs_from(out, instrs, 0);
    proof {
        assert(instructions_model(instrs@).skip(0) =~= instructions_model(instrs@));
        assert(old(out)@ + enc_u64(instrs@.len() as u64) + enc_instr_items(
            instructions_model(instrs@),
        ) =~= old(out)@ + enc_instr_list(instructions_model(instrs@)));
    }
}

/// Appends the canonical bytes of the shards from index `i` on.
fn encode_shards_from(out: &mut Vec<u8>, shards: &Vec<Shard>, i: usize)
    requires
        i <= shards@.len(),
    ensures
        final(out)@ == old(out)@ + enc_shard_items(shards@.skip(i as int)),
    decreases shards@.len() - i,
{
    if i == shards.len() {
        proof {
            assert(shards@.skip(i as int).len() == 0);
            assert(enc_shard_items(shards@.skip(i as int)) =~= Seq::<u8>::empty());
            assert(old(out)@ + Seq::<u8>::empty() =~= old(out)@);
        }
    } else {
        push_u64(out, shards[i].0 as u64);
        encode_shards_from(out, shards, i + 1);
        proof {
            assert(shards@.skip(i as int)[0] == shards@[i as int]);
            assert(shards@.skip(i as int).skip(1) =~= shards@.skip(i as int + 1));
            assert(old(out)@ + enc_u64(shards@[i as int].0 as u64) + enc_shard_items(
                shards@.skip(i as int + 1),
            ) =~= old(out)@ + enc_shard_items(shards@.skip(i as int)));
        }
    }
}

/// Appends a length-prefixed shard list.
fn encode_shards(out: &mut Vec<u8>, shards: &Vec<Shard>)
    ensures
        final(out)@ == old(out)@ + enc_shards(shards@),
{
    push_u64(out, shards.len() as u64);
    encode_shards_from(out, shards, 0);
    proof {
        assert(shards@.skip(0) =~= shards@);
        assert(old(out)@ + enc_u64(shards@.len() as u64) + enc_shard_items(shards@) =~= old(out)@
            + enc_shards(shards@));
    }
}

/// Serializes a transaction into its canonical bytes.
pub fn encode_transaction(t: &Transaction) -> (r: Vec<u8>)
    ensures
        r@ == enc_transaction(t.model()),
{
    let mut out: Vec<u8> = Vec::new();
    push_u64(&mut out, t.hash().0);
    encode_instr_list(&mut out, t.fee_instructions());
    encode_instr_list(&mut out, t.instructions());
    push_bytes(&mut out, t.signature());
    push_bytes(&mut out, t.sender_public_key());
    encode_shards(&mut out, t.inputs());
    encode_shards(&mut out, t.input_refs());
    encode_shards(&mut out, t.outputs());
    proof {
        assert(out@ =~= enc_transaction(t.model()));
    }
    out
}

/// Reads one argument at `pos`.
fn read_arg(bytes: &Vec<u8>, pos: usize) -> (r: Option<(Arg, usize)>)
    requires
        pos <= bytes@.len(),
    ensures
        match r {
            Some((a, next)) => pos <= next <= bytes@.len() && dec_arg(bytes@.skip(pos as int))
                == Some((a.model(), bytes@.skip(next as int))),
            None => dec_arg(bytes@.skip(pos as int)) is None,
        },
{
    let tag = match read_u8(bytes, pos) {
        Some(t) => t,
        None => {
            return None;
        },
    };
    if tag.0 == 0 {
        proof {
            assert(bytes@.skip(pos as int).skip(1) =~= bytes@.skip(tag.1 as int));
        }
        match read_bytes(bytes, tag.1) {
            Some((b, next)) => Some((Arg::Literal(b), next)),
            None => None,
        }
    } else if tag.0 == 1 {
        proof {
            assert(bytes@.skip(pos as int).skip(1) =~= bytes@.skip(tag.1 as int));
        }
        match read_bytes(bytes, tag.1) {
            Some((b, next)) => Some((Arg::Variable(b), next)),
            None => None,
        }
    } else {
        None
    }
}

/// Reads a length-prefixed argument list at `pos`.
fn read_args(bytes: &Vec<u8>, pos: usize) -> (r: Option<(Vec<Arg>, usize)>)
    requires
        pos <= bytes@.len(),
    ensures
        match r {
            Some((args, next)) => pos <= next <= bytes@.len() && dec_args(
                bytes@.skip(pos as int),
            ) == Some((args_model(args@), bytes@.skip(next as int))),
            None => dec_args(bytes@.skip(pos as int)) is None,
        },
{
    let count = match read_u64(bytes, pos) {
        Some(t) => {
            proof {
                assert(bytes@.skip(pos as int).skip(8) =~= bytes@.skip(t.1 as int));
            }
            t
        },
        None => {
            return None;
        },
    };
    let (n, start) = count;
    let mut cursor: usize = start;
    let mut args: Vec<Arg> = Vec::new();
    let mut parsed: u64 = 0;
    while parsed < n
        invariant
            parsed <= n,
            pos <= cursor,
            cursor <= bytes@.len(),
            args@.len() == parsed,
            dec_args(bytes@.skip(pos as int)) == (match dec_args_items(
                bytes@.skip(cursor as int),
                (n - parsed) as nat,
            ) {
                Some((more, rest)) => Some((args_model(args@) + more, rest)),
                None => None::<(Seq<ArgModel>, Seq<u8>)>,
            }),
        decreases n - parsed,
    {
        let a = match read_arg(bytes, cursor) {
            Some(t) => t,
            None => {
                return None;
            },
        };
        let ghost prev = args@;
        args.push(a.0);
        cursor = a.1;
        parsed = parsed + 1;
        proof {
            assert(args_model(args@) =~= args_model(prev).push(a.0.model()));
            assert forall|more: Seq<ArgModel>|
                true implies args_model(prev) + (seq![a.0.model()] + more) =~= args_model(args@)
                + more by {
            }
        }
    }
    proof {
        assert(dec_args_items(bytes@.skip(cursor as int), 0) == Some(
            (Seq::<ArgModel>::empty(), bytes@.skip(cursor as int)),
        ));
        assert(args_model(args@) + Seq::<ArgModel>::empty() =~= args_model(args@));
    }
    Some((args, cursor))
}

/// Reads one instruction at `pos`.
fn read_instruction(bytes: &Vec<u8>, pos: usize) -> (r: Option<(Instruction, usize)>)
    requires
        pos <= bytes@.len(),
    ensures
        match r {
            Some((ins, next)) => pos <= next <= bytes@.len() && dec_instruction(
                bytes@.skip(pos as int),
            ) == Some((ins.model(), bytes@.skip(next as int))),
            None => dec_instruction(bytes@.skip(pos as int)) is None,
        },
{
    proof {
        reveal(dec_instruction);
    }
    let tag = match read_u8(bytes, pos) {
        Some(t) => t,
        None => {
            return None;
        },
    };
    proof {
        assert(bytes@.skip(pos as int).skip(1) =~= bytes@.skip(tag.1 as int));
    }
    if tag.0 == 0 {
        let addr = match read_u64(bytes, tag.1) {
            Some(t) => t,
            None => {
                return None;
            },
        };
        proof {
            assert(bytes@.skip(tag.1 as int).skip(8) =~= bytes@.skip(addr.1 as int));
        }
        let name = match read_bytes(bytes, addr.1) {
            Some(t) => t,
            None => {
                return None;
            },
        };
        let args = match read_args(bytes, name.1) {
            Some(t) => t,
            None => {
                return None;
            },
        };
        Some(
            (
                Instruction::CallFunction {
                    template_address: addr.0,
                    function: name.0,
                    args: args.0,
                },
                args.1,
            ),
        )
    } else if tag.0 == 1 {
        let addr = match read_u64(bytes, tag.1) {
            Some(t) => t,
            None => {
                return None;
            },
        };
        proof {
            assert(bytes@.skip(tag.1 as int).skip(8) =~= bytes@.skip(addr.1 as int));
        }
        let name = match read_bytes(bytes, addr.1) {
            Some(t) => t,
            None => {
                return None;
            },
        };
        let args = match read_args(bytes, name.1) {
            Some(t) => t,
            None => {
                return None;
            },
        };
        Some(
            (
                Instruction::CallMethod {
                    component_address: addr.0,
                    method: name.0,
                    args: args.0,
                },
                args.1,
            ),
        )
    } else if tag.0 == 2 {
        let key = match read_bytes(bytes, tag.1) {
            Some(t) => t,
            None => {
                return None;
            },
        };
        Some((Instruction::PutLastInstructionOutputOnWorkspace { key: key.0 }, key.1))
    } else if tag.0 == 3 {
        let ca = match read_bytes(bytes, tag.1) {
            Some(t) => t,
            None => {
                return None;
            },
        };
        let rp = match read_bytes(bytes, ca.1) {
            Some(t) => t,
            None => {
                return None;
            },
        };
        let pk = match read_bytes(bytes, rp.1) {
            Some(t) => t,
            None => {
                return None;
            },
        };
        Some(
            (
                Instruction::ClaimBurn {
                    commitment_address: ca.0,
                    range_proof: rp.0,
                    proof_of_knowledge: pk.0,
                },
                pk.1,
            ),
        )
    } else {
        None
    }
}

/// Reads a length-prefixed instruction list at `pos`.
fn read_instr_list(bytes: &Vec<u8>, pos: usize) -> (r: Option<(Vec<Instruction>, usize)>)
    requires
        pos <= bytes@.len(),
    ensures
        match r {
            Some((instrs, next)) => pos <= next <= bytes@.len() && dec_instr_list(
                bytes@.skip(pos as int),
            ) == Some((instructions_model(instrs@), bytes@.skip(next as int))),
            None => dec_instr_list(bytes@.skip(pos as int)) is None,
        },
{
    let count = match read_u64(bytes, pos) {
        Some(t) => {
            proof {
                assert(bytes@.skip(pos as int).skip(8) =~= bytes@.skip(t.1 as int));
            }
            t
        },
        None => {
            return None;
        },
    };
    let (n, start) = count;
    let mut cursor: usize = start;
    let mut instrs: Vec<Instruction> = Vec::new();
    let mut parsed: u64 = 0;
    while parsed < n
        invariant
            parsed <= n,
            pos <= cursor,
            cursor <= bytes@.len(),
            instrs@.len() == parsed,
            dec_instr_list(bytes@.skip(pos as int)) == (match dec_instr_items(
                bytes@.skip(cursor as int),
                (n - parsed) as nat,
            ) {
                Some((more, rest)) => Some((instructions_model(instrs@) + more, rest)),
                None => None::<(Seq<InstructionModel>, Seq<u8>)>,
            }),
        decreases n - parsed,
    {
        let ins = match read_instruction(bytes, cursor) {
            Some(t) => t,
            None => {
                return None;
            },
        };
        let ghost prev = instrs@;
        instrs.push(ins.0);
        cursor = ins.1;
        parsed = parsed + 1;
        proof {
            assert(instructions_model(instrs@) =~= instructions_model(prev).push(ins.0.model()));
            assert forall|more: Seq<InstructionModel>|
                true implies instructions_model(prev) + (seq![ins.0.model()] + more)
                =~= instructions_model(instrs@) + more by {
            }
        }
    }
    proof {
        assert(dec_instr_items(bytes@.skip(cursor as int), 0) == Some(
            (Seq::<InstructionModel>::empty(), bytes@.skip(cursor as int)),
        ));
        assert(instructions_model(instrs@) + Seq::<InstructionModel>::empty()
            =~= instructions_model(instrs@));
    }
    Some((instrs, cursor))
}

/// Reads a length-prefixed shard list at `pos`.
fn read_shards(bytes: &Vec<u8>, pos: usize) -> (r: Option<(Vec<Shard>, usize)>)
    requires
        pos <= bytes@.len(),
    ensures
        match r {
            Some((shards, next)) => pos <= next <= bytes@.len() && dec_shards(
                bytes@.skip(pos as int),
            ) == Some((shards@, bytes@.skip(next as int))),
            None => dec_shards(bytes@.skip(pos as int)) is None,
        },
{
    let count = match read_u64(bytes, pos) {
        Some(t) => {
            proof {
                assert(bytes@.skip(pos as int).skip(8) =~= bytes@.skip(t.1 as int));
            }
            t
        },
        None => {
            return None;
        },
    };
    let (n, start) = count;
    let mut cursor: usize = start;
    let mut shards: Vec<Shard> = Vec::new();
    let mut parsed: u64 = 0;
    while parsed < n
        invariant
            parsed <= n,
            pos <= cursor,
            cursor <= bytes@.len(),
            shards@.len() == parsed,
            dec_shards(bytes@.skip(pos as int)) == (match dec_shard_items(
                bytes@.skip(cursor as int),
                (n - parsed) as nat,
            ) {
                Some((more, rest)) => Some((shards@ + more, rest)),
                None => None::<(Seq<Shard>, Seq<u8>)>,
            }),
        decreases n - parsed,
    {
        let v = match read_u64(bytes, cursor) {
            Some(t) => t,
            None => {
                return None;
            },
        };
        proof {
            assert(bytes@.skip(cursor as int).skip(8) =~= bytes@.skip(v.1 as int));
        }
        if v.0 >= 0x1_0000_0000 {
            return None;
        }
        let ghost prev = shards@;
        shards.push(Shard(v.0 as u32));
        cursor = v.1;
        parsed = parsed + 1;
        proof {
            assert forall|more: Seq<Shard>|
                true implies prev + (seq![Shard(v.0 as u32)] + more) =~= shards@ + more by {
            }
        }
    }
    proof {
        assert(dec_shard_items(bytes@.skip(cursor as int), 0) == Some(
            (Seq::<Shard>::empty(), bytes@.skip(cursor as int)),
        ));
        assert(shards@ + Seq::<Shard>::empty() =~= shards@);
    }
    Some((shards, cursor))
}

/// Decides whether two shard lists share an element.
fn shards_disjoint(a: &Vec<Shard>, b: &Vec<Shard>) -> (r: bool)
    ensures
        r == forall|i: int, j: int|
            0 <= i < a@.len() && 0 <= j < b@.len() ==> a@[i] != b@[j],
{
    let mut i: usize = 0;
    while i < a.len()
        invariant
            i <= a@.len(),
            forall|x: int, y: int| 0 <= x < i && 0 <= y < b@.len() ==> a@[x] != b@[y],
        decreases a@.len() - i,
    {
        let mut j: usize = 0;
        while j < b.len()
            invariant
                i < a@.len(),
                j <= b@.len(),
                forall|y: int| 0 <= y < j ==> a@[i as int] != b@[y],
            decreases b@.len() - j,
        {
            if a[i].0 == b[j].0 {
                return false;
            }
            j = j + 1;
        }
        i = i + 1;
    }
    true
}

/// Decides whether a shard list is duplicate-free.
fn shards_distinct(a: &Vec<Shard>) -> (r: bool)
    ensures
        r == a@.no_duplicates(),
{
    let mut i: usize = 0;
    while i < a.len()
        invariant
            i <= a@.len(),
            forall|x: int, y: int| 0 <= x < y < a@.len() && y < i ==> a@[x] != a@[y],
        decreases a@.len() - i,
    {
        let mut j: usize = 0;
        while j < i
            invariant
                i < a@.len(),
                j <= i,
                forall|y: int| 0 <= y < j ==> a@[y] != a@[i as int],
            decreases i - j,
        {
            if a[j].0 == a[i].0 {
                return false;
            }
            j = j + 1;
        }
        i = i + 1;
    }
    true
}

/// A whole buffer holds exactly one transaction.
pub open spec fn dec_transaction_full(s: Seq<u8>) -> Option<TransactionModel> {
    match dec_transaction(s) {
        Some((m, rest)) => if rest.len() == 0 {
            Some(m)
        } else {
            None
        },
        None => None,
    }
}

/// Parses a transaction from the whole buffer: the well-formed
/// transaction whose canonical bytes the buffer holds, or `None`.
pub fn decode_transaction(bytes: &Vec<u8>) -> (r: Option<Transaction>)
    ensures
        match r {
            Some(t) => dec_transaction_full(bytes@) == Some(t.model()) && t.wf(),
            None => dec_transaction_full(bytes@) is None,
        },
{
    proof {
        assert(bytes@.skip(0) =~= bytes@);
    }
    let hash = match read_u64(bytes, 0) {
        Some(t) => {
            proof {
                assert(bytes@.skip(0).skip(8) =~= bytes@.skip(8));
            }
            t
        },
        None => {
            return None;
        },
    };
    let fee = match read_instr_list(bytes, hash.1) {
        Some(t) => t,
        None => {
            return None;
        },
    };
    let instrs = match read_instr_list(bytes, fee.1) {
        Some(t) => t,
        None => {
            return None;
        },
    };
    let sig = match read_bytes(bytes, instrs.1) {
        Some(t) => t,
        None => {
            return None;
        },
    };
    let spk = match read_bytes(bytes, sig.1) {
        Some(t) => t,
        None => {
            return None;
        },
    };
    let inputs = match read_shards(bytes, spk.1) {
        Some(t) => t,
        None => {
            return None;
        },
    };
    let input_refs = match read_shards(bytes, inputs.1) {
        Some(t) => t,
        None => {
            return None;
        },
    };
    let outputs = match read_shards(bytes, input_refs.1) {
        Some(t) => t,
        None => {
            return None;
        },
    };
    let wf_ok = shards_distinct(&inputs.0) && shards_distinct(&input_refs.0) && shards_distinct(
        &outputs.0,
    ) && shards_disjoint(&inputs.0, &input_refs.0) && shards_disjoint(&inputs.0, &outputs.0)
        && shards_disjoint(&input_refs.0, &outputs.0);
    if !wf_ok {
        proof {
            assert(!shard_sets_wf(inputs.0@, input_refs.0@, outputs.0@));
        }
        return None;
    }
    if outputs.1 != bytes.len() {
        proof {
            assert(bytes@.skip(outputs.1 as int).len() != 0);
        }
        return None;
    }
    let t = Transaction::new(
        TransactionId(hash.0),
        fee.0,
        instrs.0,
        sig.0,
        spk.0,
        inputs.0,
        input_refs.0,
        outputs.0,
    );
    proof {
        assert(bytes@.skip(outputs.1 as int).len() == 0);
        assert(t.model() =~~= dec_transaction(bytes@).unwrap().0);
    }
    Some(t)
}

/// A length-prefixed validator list, each id as an eight-byte integer.
pub open spec fn enc_validator_items(vs: Seq<ValidatorId>) -> Seq<u8>
    decreases vs.len(),
{
    if vs.len() == 0 {
        Seq::empty()
    } else {
        enc_u64(vs[0].0) + enc_validator_items(vs.skip(1))
    }
}

pub open spec fn enc_validators(vs: Seq<ValidatorId>) -> Seq<u8> {
    enc_u64(vs.len() as u64) + enc_validator_items(vs)
}

pub open spec fn dec_validator_items(s: Seq<u8>, n: nat) -> Option<(Seq<ValidatorId>, Seq<u8>)>
    decreases n,
{
    if n == 0 {
        Some((Seq::empty(), s))
    } else {
        match dec_u64_spec(s) {
            Some((v, rest)) => match dec_validator_items(rest, (n - 1) as nat) {
                Some((others, rest2)) => Some((seq![ValidatorId(v)] + others, rest2)),
                None => None,
            },
            None => None,
        }
    }
}

pub open spec fn dec_validators(s: Seq<u8>) -> Option<(Seq<ValidatorId>, Seq<u8>)> {
    match dec_u64_spec(s) {
        Some((n, rest)) => dec_validator_items(rest, n as nat),
        None => None,
    }
}

proof fn lemma_validator_items_round_trip(vs: Seq<ValidatorId>, rest: Seq<u8>)
    ensures
        dec_validator_items(enc_validator_items(vs) + rest, vs.len()) == Some((vs, rest)),
    decreases vs.len(),
{
    if vs.len() == 0 {
        assert(enc_validator_items(vs) + rest =~= rest);
        assert(vs =~= Seq::<ValidatorId>::empty());
    } else {
        let tail = vs.skip(1);
        lemma_validator_items_round_trip(tail, rest);
        assert(enc_validator_items(vs) + rest =~= enc_u64(vs[0].0) + (enc_validator_items(tail)
            + rest));
        lemma_u64_round_trip(vs[0].0, enc_validator_items(tail) + rest);
        assert(ValidatorId(vs[0].0) == vs[0]);
        assert(seq![vs[0]] + tail =~= vs);
    }
}

proof fn lemma_validators_round_trip(vs: Seq<ValidatorId>, rest: Seq<u8>)
    requires
        vs.len() < 0x1_0000_0000_0000_0000,
    ensures
        dec_validators(enc_validators(vs) + rest) == Some((vs, rest)),
{
    assert(enc_validators(vs) + rest =~= enc_u64(vs.len() as u64) + (enc_validator_items(vs)
        + rest));
    lemma_u64_round_trip(vs.len() as u64, enc_validator_items(vs) + rest);
    lemma_validator_items_round_trip(vs, rest);
}

/// A quorum certificate: block id, height, epoch, then the signers.
pub open spec fn enc_qc(q: QcModel) -> Seq<u8> {
    enc_u64(q.block_id.0) + enc_u64(q.height.0) + enc_u64(q.epoch.0) + enc_validators(q.signers)
}

pub open spec fn dec_qc(s: Seq<u8>) -> Option<(QcModel, Seq<u8>)> {
    match dec_u64_spec(s) {
        Some((block_id, r1)) => match dec_u64_spec(r1) {
            Some((height, r2)) => match dec_u64_spec(r2) {
                Some((epoch, r3)) => match dec_validators(r3) {
                    Some((signers, r4)) => Some(
                        (
                            QcModel {
                                block_id: BlockId(block_id),
                                height: NodeHeight(height),
                                epoch: Epoch(epoch),
                                signers,
                            },
                            r4,
                        ),
                    ),
                    None => None,
                },
                None => None,
            },
            None => None,
        },
        None => None,
    }
}

proof fn lemma_qc_round_trip(q: QcModel, rest: Seq<u8>)
    requires
        q.signers.len() < 0x1_0000_0000_0000_0000,
    ensures
        dec_qc(enc_qc(q) + rest) == Some((q, rest)),
{
    let t3 = enc_validators(q.signers) + rest;
    let t2 = enc_u64(q.epoch.0) + t3;
    let t1 = enc_u64(q.height.0) + t2;
    assert(enc_qc(q) + rest =~= enc_u64(q.block_id.0) + t1);
    lemma_u64_round_trip(q.block_id.0, t1);
    lemma_u64_round_trip(q.height.0, t2);
    lemma_u64_round_trip(q.epoch.0, t3);
    lemma_validators_round_trip(q.signers, rest);
    assert(QcModel {
        block_id: BlockId(q.block_id.0),
        height: NodeHeight(q.height.0),
        epoch: Epoch(q.epoch.0),
        signers: q.signers,
    } =~= q);
}

/// One command atom: the transaction id, the decision as a tag byte, then
/// the evidence.
pub open spec fn enc_atom(a: AtomModel) -> Seq<u8> {
    enc_u64(a.id.0) + (match a.decision {
        Decision::Commit => seq![0u8],
        Decision::Abort => seq![1u8],
    }) + enc_evidence(a.evidence)
}

pub open spec fn dec_atom(s: Seq<u8>) -> Option<(AtomModel, Seq<u8>)> {
    match dec_u64_spec(s) {
        Some((id, r1)) => if r1.len() < 1 {
            None
        } else {
            let decision = if r1[0] == 0 {
                Some(Decision::Commit)
            } else if r1[0] == 1 {
                Some(Decision::Abort)
            } else {
                None
            };
            match decision {
                Some(d) => match dec_evidence(r1.skip(1)) {
                    Some((e, r2)) => Some(
                        (AtomModel { id: TransactionId(id), decision: d, evidence: e }, r2),
                    ),
                    None => None,
                },
                None => None,
            }
        },
        None => None,
    }
}

/// Evidence entry counts fit their length prefixes.
pub open spec fn evidence_bounded(m: EvidenceModel) -> bool {
    &&& m.entries.len() < 0x1_0000_0000_0000_0000
    &&& forall|i: int|
        0 <= i < m.entries.len() ==> (#[trigger] m.entries[i]).1.len()
            < 0x1_0000_0000_0000_0000
}

proof fn lemma_atom_round_trip(a: AtomModel, rest: Seq<u8>)
    requires
        evidence_bounded(a.evidence),
    ensures
        dec_atom(enc_atom(a) + rest) == Some((a, rest)),
{
    let dbyte: Seq<u8> = match a.decision {
        Decision::Commit => seq![0u8],
        Decision::Abort => seq![1u8],
    };
    let t2 = enc_evidence(a.evidence) + rest;
    let t1 = dbyte + t2;
    assert(enc_atom(a) + rest =~= enc_u64(a.id.0) + t1);
    lemma_u64_round_trip(a.id.0, t1);
    assert(t1[0] == dbyte[0]);
    assert(t1.skip(1) =~= t2);
    theorem_evidence_round_trip(a.evidence, rest);
    assert(AtomModel { id: TransactionId(a.id.0), decision: a.decision, evidence: a.evidence }
        =~= a);
}

pub open spec fn enc_atom_items(atoms: Seq<AtomModel>) -> Seq<u8>
    decreases atoms.len(),
{
    if atoms.len() == 0 {
        Seq::empty()
    } else {
        enc_atom(atoms[0]) + enc_atom_items(atoms.skip(1))
    }
}

pub open spec fn enc_atoms(atoms: Seq<AtomModel>) -> Seq<u8> {
    enc_u64(atoms.len() as u64) + enc_atom_items(atoms)
}

pub open spec fn dec_atom_items(s: Seq<u8>, n: nat) -> Option<(Seq<AtomModel>, Seq<u8>)>
    decreases n,
{
    if n == 0 {
        Some((Seq::empty(), s))
    } else {
        match dec_atom(s) {
            Some((a, rest)) => match dec_atom_items(rest, (n - 1) as nat) {
                Some((others, rest2)) => Some((seq![a] + others, rest2)),
                None => None,
            },
            None => None,
        }
    }
}

pub open spec fn dec_atoms(s: Seq<u8>) -> Option<(Seq<AtomModel>, Seq<u8>)> {
    match dec_u64_spec(s) {
        Some((n, rest)) => dec_atom_items(rest, n as nat),
        None => None,
    }
}

proof fn lemma_atom_items_round_trip(atoms: Seq<AtomModel>, rest: Seq<u8>)
    requires
        forall|k: int| 0 <= k < atoms.len() ==> evidence_bounded((#[trigger] atoms[k]).evidence),
    ensures
        dec_atom_items(enc_atom_items(atoms) + rest, atoms.len()) == Some((atoms, rest)),
    decreases atoms.len(),
{
    if atoms.len() == 0 {
        assert(enc_atom_items(atoms) + rest =~= rest);
        assert(atoms =~= Seq::<AtomModel>::empty());
    } else {
        let tail = atoms.skip(1);
        assert forall|k: int| 0 <= k < tail.len() implies evidence_bounded(
            (#[trigger] tail[k]).evidence,
        ) by {
            assert(tail[k] == atoms[k + 1]);
        }
        lemma_atom_items_round_trip(tail, rest);
        assert(enc_atom_items(atoms) + rest =~= enc_atom(atoms[0]) + (enc_atom_items(tail)
            + rest));
        lemma_atom_round_trip(atoms[0], enc_atom_items(tail) + rest);
        assert(seq![atoms[0]] + tail =~= atoms);
    }
}

/// The canonical bytes of a block.
#[verifier::opaque]
pub open spec fn enc_block(m: BlockModel) -> Seq<u8> {
    enc_u64(m.id.0) + enc_u64(m.parent_id.0) + enc_u64(m.height.0) + enc_u64(m.epoch.0) + enc_u64(
        m.proposer.0,
    ) + enc_qc(m.justify) + enc_atoms(m.commands) + enc_u64(m.timestamp)
}

/// Reads the five leading header integers of a block.
pub open spec fn dec_block_header(s: Seq<u8>) -> Option<((u64, u64, u64, u64, u64), Seq<u8>)> {
    match dec_u64_spec(s) {
        Some((id, r1)) => match dec_u64_spec(r1) {
            Some((parent_id, r2)) => match dec_u64_spec(r2) {
                Some((height, r3)) => match dec_u64_spec(r3) {
                    Some((epoch, r4)) => match dec_u64_spec(r4) {
                        Some((proposer, r5)) => Some(((id, parent_id, height, epoch, proposer), r5)),
                        None => None,
                    },
                    None => None,
                },
                None => None,
            },
            None => None,
        },
        None => None,
    }
}

/// Reads a block from the front of `s`.
pub open spec fn dec_block(s: Seq<u8>) -> Option<(BlockModel, Seq<u8>)> {
    match dec_block_header(s) {
        Some((h, r5)) => match dec_qc(r5) {
            Some((justify, r6)) => match dec_atoms(r6) {
                Some((commands, r7)) => match dec_u64_spec(r7) {
                    Some((timestamp, r8)) => Some(
                        (
                            BlockModel {
                                id: BlockId(h.0),
                                parent_id: BlockId(h.1),
                                height: NodeHeight(h.2),
                                epoch: Epoch(h.3),
                                proposer: ValidatorId(h.4),
                                justify,
                                commands,
                                timestamp,
                            },
                            r8,
                        ),
                    ),
                    None => None,
                },
                None => None,
            },
            None => None,
        },
        None => None,
    }
}

proof fn lemma_block_header_round_trip(m: BlockModel, tail: Seq<u8>)
    ensures
        dec_block_header(
            enc_u64(m.id.0) + (enc_u64(m.parent_id.0) + (enc_u64(m.height.0) + (enc_u64(m.epoch.0)
                + (enc_u64(m.proposer.0) + tail)))),
        ) == Some(((m.id.0, m.parent_id.0, m.height.0, m.epoch.0, m.proposer.0), tail)),
{
    let t5 = enc_u64(m.proposer.0) + tail;
    let t4 = enc_u64(m.epoch.0) + t5;
    let t3 = enc_u64(m.height.0) + t4;
    let t2 = enc_u64(m.parent_id.0) + t3;
    lemma_u64_round_trip(m.id.0, t2);
    lemma_u64_round_trip(m.parent_id.0, t3);
    lemma_u64_round_trip(m.height.0, t4);
    lemma_u64_round_trip(m.epoch.0, t5);
    lemma_u64_round_trip(m.proposer.0, tail);
}

/// A whole buffer holds exactly one block.
pub open spec fn dec_block_full(s: Seq<u8>) -> Option<BlockModel> {
    match dec_block(s) {
        Some((m, rest)) => if rest.len() == 0 {
            Some(m)
        } else {
            None
        },
        None => None,
    }
}

/// Every list in the block fits its length prefix.
pub open spec fn block_bounded(m: BlockModel) -> bool {
    &&& m.justify.signers.len() < 0x1_0000_0000_0000_0000
    &&& m.commands.len() < 0x1_0000_0000_0000_0000
    &&& forall|k: int|
        0 <= k < m.commands.len() ==> evidence_bounded((#[trigger] m.commands[k]).evidence)
}

/// The round trip law for blocks: decoding the canonical bytes of any
/// block, whatever follows them, gives the block back — so re-persisting
/// a decoded block stores bit-identical contents.
pub proof fn theorem_block_round_trip(m: BlockModel, rest: Seq<u8>)
    requires
        block_bounded(m),
    ensures
        dec_block(enc_block(m) + rest) == Some((m, rest)),
        dec_block_full(enc_block(m)) == Some(m),
{
    lemma_block_round_trip_with(m, rest);
    lemma_block_round_trip_with(m, Seq::<u8>::empty());
    assert(enc_block(m) + Seq::<u8>::empty() =~= enc_block(m));
}

#[verifier::rlimit(100)]
#[verifier::spinoff_prover]
proof fn lemma_block_round_trip_with(m: BlockModel, rest: Seq<u8>)
    requires
        block_bounded(m),
    ensures
        dec_block(enc_block(m) + rest) == Some((m, rest)),
{
    let t8 = enc_u64(m.timestamp) + rest;
    let t7 = enc_atoms(m.commands) + t8;
    let t6 = enc_qc(m.justify) + t7;
    let t5 = enc_u64(m.proposer.0) + t6;
    let t4 = enc_u64(m.epoch.0) + t5;
    let t3 = enc_u64(m.height.0) + t4;
    let t2 = enc_u64(m.parent_id.0) + t3;
    assert(enc_block(m) + rest =~= enc_u64(m.id.0) + (enc_u64(m.parent_id.0) + (enc_u64(
        m.height.0,
    ) + (enc_u64(m.epoch.0) + (enc_u64(m.proposer.0) + t6))))) by {
        reveal(enc_block);
    }
    lemma_block_header_round_trip(m, t6);
    assert(dec_block_header(enc_block(m) + rest) == Some(
        ((m.id.0, m.parent_id.0, m.height.0, m.epoch.0, m.proposer.0), t6),
    ));
    lemma_qc_round_trip(m.justify, t7);
    assert(dec_qc(t6) == Some((m.justify, t7)));
    assert(enc_atoms(m.commands) + t8 =~= enc_u64(m.commands.len() as u64) + (enc_atom_items(
        m.commands,
    ) + t8));
    lemma_u64_round_trip(m.commands.len() as u64, enc_atom_items(m.commands) + t8);
    lemma_atom_items_round_trip(m.commands, t8);
    assert(dec_atoms(t7) == Some((m.commands, t8)));
    lemma_u64_round_trip(m.timestamp, rest);
    assert(dec_u64_spec(t8) == Some((m.timestamp, rest)));
    assert(BlockModel {
        id: BlockId(m.id.0),
        parent_id: BlockId(m.parent_id.0),
        height: NodeHeight(m.height.0),
        epoch: Epoch(m.epoch.0),
        proposer: ValidatorId(m.proposer.0),
        justify: m.justify,
        commands: m.commands,
        timestamp: m.timestamp,
    } =~= m);
}

/// Appends the canonical bytes of the validators from index `i` on.
fn encode_validators_from(out: &mut Vec<u8>, vs: &Vec<ValidatorId>, i: usize)
    requires
        i <= vs@.len(),
    ensures
        final(out)@ == old(out)@ + enc_validator_items(vs@.skip(i as int)),
    decreases vs@.len() - i,
{
    if i == vs.len() {
        proof {
            assert(vs@.skip(i as int).len() == 0);
            assert(enc_validator_items(vs@.skip(i as int)) =~= Seq::<u8>::empty());
            assert(old(out)@ + Seq::<u8>::empty() =~= old(out)@);
        }
    } else {
        push_u64(out, vs[i].0);
        encode_validators_from(out, vs, i + 1);
        proof {
            assert(vs@.skip(i as int)[0] == vs@[i as int]);
            assert(vs@.skip(i as int).skip(1) =~= vs@.skip(i as int + 1));
            assert(old(out)@ + enc_u64(vs@[i as int].0) + enc_validator_items(
                vs@.skip(i as int + 1),
            ) =~= old(out)@ + enc_validator_items(vs@.skip(i as int)));
        }
    }
}

/// Appends a quorum certificate's canonical bytes.
fn encode_qc(out: &mut Vec<u8>, qc: &QuorumCertificate)
    ensures
        final(out)@ == old(out)@ + enc_qc(qc.model()),
{
    push_u64(out, qc.block_id.0);
    push_u64(out, qc.height.0);
    push_u64(out, qc.epoch.0);
    push_u64(out, qc.signers.len() as u64);
    encode_validators_from(out, &qc.signers, 0);
    proof {
        assert(qc.signers@.skip(0) =~= qc.signers@);
        assert(old(out)@ + enc_u64(qc.block_id.0) + enc_u64(qc.height.0) + enc_u64(qc.epoch.0)
            + enc_u64(qc.signers@.len() as u64) + enc_validator_items(qc.signers@) =~= old(out)@
            + enc_qc(qc.model()));
    }
}

/// Appends one command atom's canonical bytes.
fn encode_atom(out: &mut Vec<u8>, atom: &TransactionAtom)
    requires
        atom.evidence.entries@.len() < 0x1_0000_0000,
        forall|i: int|
            0 <= i < atom.evidence.entries@.len() ==> (#[trigger] atom.evidence.entries@[i]).1@.len()
                < 0x1_0000_0000,
    ensures
        final(out)@ == old(out)@ + enc_atom(atom.model()),
{
    push_u64(out, atom.id.0);
    match atom.decision {
        Decision::Commit => out.push(0),
        Decision::Abort => out.push(1),
    }
    let ev = encode_evidence(&atom.evidence);
    extend_bytes(out, &ev);
    proof {
        let dbyte: Seq<u8> = match atom.decision {
            Decision::Commit => seq![0u8],
            Decision::Abort => seq![1u8],
        };
        assert((old(out)@ + enc_u64(atom.id.0)).push(dbyte[0]) =~= old(out)@ + enc_u64(atom.id.0)
            + dbyte);
        assert(old(out)@ + enc_u64(atom.id.0) + dbyte + enc_evidence(atom.evidence.model())
            =~= old(out)@ + enc_atom(atom.model()));
    }
}

/// Appends the canonical bytes of the atoms from index `i` on.
fn encode_atoms_from(out: &mut Vec<u8>, atoms: &Vec<TransactionAtom>, i: usize)
    requires
        i <= atoms@.len(),
        forall|k: int|
            0 <= k < atoms@.len() ==> (#[trigger] atoms@[k]).evidence.entries@.len()
                < 0x1_0000_0000 && forall|t: int|
                0 <= t < atoms@[k].evidence.entries@.len()
                    ==> (#[trigger] atoms@[k].evidence.entries@[t]).1@.len() < 0x1_0000_0000,
    ensures
        final(out)@ == old(out)@ + enc_atom_items(atoms_model(atoms@).skip(i as int)),
    decreases atoms@.len() - i,
{
    let ghost s = atoms_model(atoms@);
    if i == atoms.len() {
        proof {
            assert(s.skip(i as int).len() == 0);
            assert(enc_atom_items(s.skip(i as int)) =~= Seq::<u8>::empty());
            assert(old(out)@ + Seq::<u8>::empty() =~= old(out)@);
        }
    } else {
        encode_atom(out, &atoms[i]);
        encode_atoms_from(out, atoms, i + 1);
        proof {
            assert(s.skip(i as int)[0] == atoms@[i as int].model());
            assert(s.skip(i as int).skip(1) =~= s.skip(i as int + 1));
            assert(old(out)@ + enc_atom(atoms@[i as int].model()) + enc_atom_items(
                s.skip(i as int + 1),
            ) =~= old(out)@ + enc_atom_items(s.skip(i as int)));
        }
    }
}

/// Serializes a block into its canonical bytes.
pub fn encode_block(b: &Block) -> (r: Vec<u8>)
    requires
        forall|k: int|
            0 <= k < b.commands@.len() ==> (#[trigger] b.commands@[k]).evidence.entries@.len()
                < 0x1_0000_0000 && forall|t: int|
                0 <= t < b.commands@[k].evidence.entries@.len()
                    ==> (#[trigger] b.commands@[k].evidence.entries@[t]).1@.len()
                    < 0x1_0000_0000,
    ensures
        r@ == enc_block(b.model()),
{
    let mut out: Vec<u8> = Vec::new();
    push_u64(&mut out, b.id.0);
    push_u64(&mut out, b.parent_id.0);
    push_u64(&mut out, b.height.0);
    push_u64(&mut out, b.epoch.0);
    push_u64(&mut out, b.proposer.0);
    encode_qc(&mut out, &b.justify);
    push_u64(&mut out, b.commands.len() as u64);
    encode_atoms_from(&mut out, &b.commands, 0);
    push_u64(&mut out, b.timestamp);
    proof {
        reveal(enc_block);
        assert(atoms_model(b.commands@).skip(0) =~= atoms_model(b.commands@));
        assert(out@ =~= enc_block(b.model()));
    }
    out
}

/// Reads a quorum certificate at `pos`.
fn read_qc(bytes: &Vec<u8>, pos: usize) -> (r: Option<(QuorumCertificate, usize)>)
    requires
        pos <= bytes@.len(),
    ensures
        match r {
            Some((qc, next)) => pos <= next <= bytes@.len() && dec_qc(bytes@.skip(pos as int))
                == Some((qc.model(), bytes@.skip(next as int))),
            None => dec_qc(bytes@.skip(pos as int)) is None,
        },
{
    let block_id = match read_u64(bytes, pos) {
        Some(t) => t,
        None => {
            return None;
        },
    };
    proof {
        assert(bytes@.skip(pos as int).skip(8) =~= bytes@.skip(block_id.1 as int));
    }
    let height = match read_u64(bytes, block_id.1) {
        Some(t) => t,
        None => {
            return None;
        },
    };
    proof {
        assert(bytes@.skip(block_id.1 as int).skip(8) =~= bytes@.skip(height.1 as int));
    }
    let epoch = match read_u64(bytes, height.1) {
        Some(t) => t,
        None => {
            return None;
        },
    };
    proof {
        assert(bytes@.skip(height.1 as int).skip(8) =~= bytes@.skip(epoch.1 as int));
    }
    let count = match read_u64(bytes, epoch.1) {
        Some(t) => t,
        None => {
            return None;
        },
    };
    proof {
        assert(bytes@.skip(epoch.1 as int).skip(8) =~= bytes@.skip(count.1 as int));
    }
    let (n, start) = count;
    let mut cursor: usize = start;
    let mut signers: Vec<ValidatorId> = Vec::new();
    let mut parsed: u64 = 0;
    while parsed < n
        invariant
            parsed <= n,
            pos <= cursor,
            cursor <= bytes@.len(),
            signers@.len() == parsed,
            dec_qc(bytes@.skip(pos as int)) == (match dec_validators(
                bytes@.skip(epoch.1 as int),
            ) {
                Some((vs, rest)) => Some(
                    (
                        QcModel {
                            block_id: BlockId(block_id.0),
                            height: NodeHeight(height.0),
                            epoch: Epoch(epoch.0),
                            signers: vs,
                        },
                        rest,
                    ),
                ),
                None => None::<(QcModel, Seq<u8>)>,
            }),
            dec_validators(bytes@.skip(epoch.1 as int)) == (match dec_validator_items(
                bytes@.skip(cursor as int),
                (n - parsed) as nat,
            ) {
                Some((more, rest)) => Some((signers@ + more, rest)),
                None => None::<(Seq<ValidatorId>, Seq<u8>)>,
            }),
        decreases n - parsed,
    {
        let v = match read_u64(bytes, cursor) {
            Some(t) => t,
            None => {
                return None;
            },
        };
        proof {
            assert(bytes@.skip(cursor as int).skip(8) =~= bytes@.skip(v.1 as int));
        }
        let ghost prev = signers@;
        signers.push(ValidatorId(v.0));
        cursor = v.1;
        parsed = parsed + 1;
        proof {
            assert forall|more: Seq<ValidatorId>|
                true implies prev + (seq![ValidatorId(v.0)] + more) =~= signers@ + more by {
            }
        }
    }
    proof {
        assert(dec_validator_items(bytes@.skip(cursor as int), 0) == Some(
            (Seq::<ValidatorId>::empty(), bytes@.skip(cursor as int)),
        ));
        assert(signers@ + Seq::<ValidatorId>::empty() =~= signers@);
    }
    let qc = QuorumCertificate {
        block_id: BlockId(block_id.0),
        height: NodeHeight(height.0),
        epoch: Epoch(epoch.0),
        signers,
    };
    Some((qc, cursor))
}

/// Reads one command atom at `pos`.
fn read_atom(bytes: &Vec<u8>, pos: usize) -> (r: Option<(TransactionAtom, usize)>)
    requires
        pos <= bytes@.len(),
    ensures
        match r {
            Some((a, next)) => pos <= next <= bytes@.len() && dec_atom(bytes@.skip(pos as int))
                == Some((a.model(), bytes@.skip(next as int))),
            None => dec_atom(bytes@.skip(pos as int)) is None,
        },
{
    let id = match read_u64(bytes, pos) {
        Some(t) => t,
        None => {
            return None;
        },
    };
    proof {
        assert(bytes@.skip(pos as int).skip(8) =~= bytes@.skip(id.1 as int));
    }
    let tag = match read_u8(bytes, id.1) {
        Some(t) => t,
        None => {
            return None;
        },
    };
    proof {
        assert(bytes@.skip(id.1 as int).skip(1) =~= bytes@.skip(tag.1 as int));
    }
    let decision = if tag.0 == 0 {
        Decision::Commit
    } else if tag.0 == 1 {
        Decision::Abort
    } else {
        return None;
    };
    let ev = match read_evidence(bytes, tag.1) {
        Some(t) => t,
        None => {
            return None;
        },
    };
    Some((TransactionAtom { id: TransactionId(id.0), decision, evidence: ev.0 }, ev.1))
}

/// Parses a block from the whole buffer: the block whose canonical bytes
/// the buffer holds, or `None`.
pub fn decode_block(bytes: &Vec<u8>) -> (r: Option<Block>)
    ensures
        match r {
            Some(b) => dec_block_full(bytes@) == Some(b.model()),
            None => dec_block_full(bytes@) is None,
        },
{
    proof {
        assert(bytes@.skip(0) =~= bytes@);
    }
    let id = match read_u64(bytes, 0) {
        Some(t) => {
            proof {
                assert(bytes@.skip(0).skip(8) =~= bytes@.skip(8));
            }
            t
        },
        None => {
            return None;
        },
    };
    let parent = match read_u64(bytes, id.1) {
        Some(t) => t,
        None => {
            return None;
        },
    };
    proof {
        assert(bytes@.skip(id.1 as int).skip(8) =~= bytes@.skip(parent.1 as int));
    }
    let height = match read_u64(bytes, parent.1) {
        Some(t) => t,
        None => {
            return None;
        },
    };
    proof {
        assert(bytes@.skip(parent.1 as int).skip(8) =~= bytes@.skip(height.1 as int));
    }
    let epoch = match read_u64(bytes, height.1) {
        Some(t) => t,
        None => {
            return None;
        },
    };
    proof {
        assert(bytes@.skip(height.1 as int).skip(8) =~= bytes@.skip(epoch.1 as int));
    }
    let proposer = match read_u64(bytes, epoch.1) {
        Some(t) => t,
        None => {
            return None;
        },
    };
    proof {
        assert(bytes@.skip(epoch.1 as int).skip(8) =~= bytes@.skip(proposer.1 as int));
    }
    let justify = match read_qc(bytes, proposer.1) {
        Some(t) => t,
        None => {
            return None;
        },
    };
    let count = match read_u64(bytes, justify.1) {
        Some(t) => t,
        None => {
            return None;
        },
    };
    proof {
        assert(bytes@.skip(justify.1 as int).skip(8) =~= bytes@.skip(count.1 as int));
    }
    let (n, start) = count;
    let mut cursor: usize = start;
    let mut commands: Vec<TransactionAtom> = Vec::new();
    let mut parsed: u64 = 0;
    while parsed < n
        invariant
            parsed <= n,
            cursor <= bytes@.len(),
            commands@.len() == parsed,
            dec_block_header(bytes@) == Some(
                (
                    (id.0, parent.0, height.0, epoch.0, proposer.0),
                    bytes@.skip(proposer.1 as int),
                ),
            ),
            dec_qc(bytes@.skip(proposer.1 as int)) == Some(
                (justify.0.model(), bytes@.skip(justify.1 as int)),
            ),
            dec_atoms(bytes@.skip(justify.1 as int)) == (match dec_atom_items(
                bytes@.skip(cursor as int),
                (n - parsed) as nat,
            ) {
                Some((more, rest)) => Some((atoms_model(commands@) + more, rest)),
                None => None::<(Seq<AtomModel>, Seq<u8>)>,
            }),
        decreases n - parsed,
    {
        let a = match read_atom(bytes, cursor) {
            Some(t) => t,
            None => {
                return None;
            },
        };
        let ghost prev = commands@;
        commands.push(a.0);
        cursor = a.1;
        parsed = parsed + 1;
        proof {
            assert(atoms_model(commands@) =~= atoms_model(prev).push(a.0.model()));
            assert forall|more: Seq<AtomModel>|
                true implies atoms_model(prev) + (seq![a.0.model()] + more) =~= atoms_model(
                commands@,
            ) + more by {
            }
        }
    }
    proof {
        assert(dec_atom_items(bytes@.skip(cursor as int), 0) == Some(
            (Seq::<AtomModel>::empty(), bytes@.skip(cursor as int)),
        ));
        assert(atoms_model(commands@) + Seq::<AtomModel>::empty() =~= atoms_model(commands@));
    }
    let timestamp = match read_u64(bytes, cursor) {
        Some(t) => t,
        None => {
            return None;
        },
    };
    proof {
        assert(bytes@.skip(cursor as int).skip(8) =~= bytes@.skip(timestamp.1 as int));
    }
    if timestamp.1 != bytes.len() {
        proof {
            assert(bytes@.skip(timestamp.1 as int).len() != 0);
        }
        return None;
    }
    let b = Block {
        id: BlockId(id.0),
        parent_id: BlockId(parent.0),
        height: NodeHeight(height.0),
        epoch: Epoch(epoch.0),
        proposer: ValidatorId(proposer.0),
        justify: justify.0,
        commands,
        timestamp: timestamp.0,
    };
    proof {
        assert(bytes@.skip(timestamp.1 as int).len() == 0);
        assert(b.model() =~~= dec_block(bytes@).unwrap().0);
    }
    Some(b)
}

} // verus!
