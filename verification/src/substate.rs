//! Substates: the versioned units of ledger state that execution reads
//! and writes, their addresses, and the up/down diff a transaction's
//! execution produces. Component and resource contents are carried as
//! plain identifiers and byte strings; interpreting them is the execution
//! engine's business. The byte encoding here is canonical: decoding an
//! encoded substate gives the substate back.

use vstd::prelude::*;

use crate::codec::{
    dec_bytes, dec_u64_spec, enc_bytes, enc_u64, push_bytes, push_u64, read_bytes, read_u64,
};

verus! {

/// A component instance: its address, the template it was created from,
/// and its serialized state.
#[derive(Debug, Clone, PartialEq, Eq)]
pub struct ComponentInstance {
    pub component_address: u64,
    pub template_address: u64,
    pub state: Vec<u8>,
}

/// A resource: its address and its serialized metadata.
#[derive(Debug, Clone, PartialEq, Eq)]
pub struct Resource {
    pub resource_address: u64,
    pub metadata: Vec<u8>,
}

/// The value stored under a substate address.
#[derive(Debug, Clone, PartialEq, Eq)]
pub enum SubstateValue {
    Component(ComponentInstance),
    Resource(Resource),
}

impl From<ComponentInstance> for SubstateValue {
    fn from(component: ComponentInstance) -> (r: SubstateValue)
        ensures
            r == SubstateValue::Component(component),
    {
        SubstateValue::Component(component)
    }
}

impl vstd::std_specs::convert::FromSpecImpl<ComponentInstance> for SubstateValue {
    open spec fn obeys_from_spec() -> bool {
        true
    }

    open spec fn from_spec(component: ComponentInstance) -> SubstateValue {
        SubstateValue::Component(component)
    }
}

impl From<Resource> for SubstateValue {
    fn from(resource: Resource) -> (r: SubstateValue)
        ensures
            r == SubstateValue::Resource(resource),
    {
        SubstateValue::Resource(resource)
    }
}

impl vstd::std_specs::convert::FromSpecImpl<Resource> for SubstateValue {
    open spec fn obeys_from_spec() -> bool {
        true
    }

    open spec fn from_spec(resource: Resource) -> SubstateValue {
        SubstateValue::Resource(resource)
    }
}

/// The address of a substate. Stands in for the 32-byte address of the
/// component or resource; the protocol logic reads only its identity.
#[derive(Debug, Clone, Copy, PartialEq, Eq, Structural, Hash)]
pub enum SubstateAddress {
    Component(u64),
    Resource(u64),
}

impl SubstateAddress {
    /// The shard-id key this address occupies in the shard space.
    pub fn into_shard_id(self) -> (r: u64)
        ensures
            r == (match self {
                SubstateAddress::Component(addr) => addr,
                SubstateAddress::Resource(addr) => addr,
            }),
    {
        match self {
            SubstateAddress::Component(addr) => addr,
            SubstateAddress::Resource(addr) => addr,
        }
    }
}

/// A versioned substate: the stored value and its version counter.
#[derive(Debug, Clone, PartialEq, Eq)]
pub struct Substate {
    substate: SubstateValue,
    version: u32,
}

/// The mathematical value of a `SubstateValue`.
#[verifier::ext_equal]
pub enum SubstateValueModel {
    Component { component_address: u64, template_address: u64, state: Seq<u8> },
    Resource { resource_address: u64, metadata: Seq<u8> },
}

/// The mathematical value of a `Substate`.
#[verifier::ext_equal]
pub struct SubstateModel {
    pub substate: SubstateValueModel,
    pub version: u32,
}

impl SubstateValue {
    /// The abstract value of this substate value.
    pub open spec fn model(&self) -> SubstateValueModel {
        match *self {
            SubstateValue::Component(c) => SubstateValueModel::Component {
                component_address: c.component_address,
                template_address: c.template_address,
                state: c.state@,
            },
            SubstateValue::Resource(r) => SubstateValueModel::Resource {
                resource_address: r.resource_address,
                metadata: r.metadata@,
            },
        }
    }
}

/// The canonical bytes of a substate value: a tag byte, then the
/// variant's fields.
pub open spec fn enc_substate_value(m: SubstateValueModel) -> Seq<u8> {
    match m {
        SubstateValueModel::Component { component_address, template_address, state } => seq![0u8]
            + enc_u64(component_address) + enc_u64(template_address) + enc_bytes(state),
        SubstateValueModel::Resource { resource_address, metadata } => seq![1u8] + enc_u64(
            resource_address,
        ) + enc_bytes(metadata),
    }
}

pub open spec fn dec_substate_value(s: Seq<u8>) -> Option<(SubstateValueModel, Seq<u8>)> {
    if s.len() < 1 {
        None
    } else if s[0] == 0 {
        match dec_u64_spec(s.skip(1)) {
            Some((component_address, r1)) => match dec_u64_spec(r1) {
                Some((template_address, r2)) => match dec_bytes(r2) {
                    Some((state, r3)) => Some(
                        (
                            SubstateValueModel::Component {
                                component_address,
                                template_address,
                                state,
                            },
                            r3,
                        ),
                    ),
                    None => None,
                },
                None => None,
            },
            None => None,
        }
    } else if s[0] == 1 {
        match dec_u64_spec(s.skip(1)) {
            Some((resource_address, r1)) => match dec_bytes(r1) {
                Some((metadata, r2)) => Some(
                    (SubstateValueModel::Resource { resource_address, metadata }, r2),
                ),
                None => None,
            },
            None => None,
        }
    } else {
        None
    }
}

/// The canonical bytes of a substate: its version, then its value.
pub open spec fn enc_substate(m: SubstateModel) -> Seq<u8> {
    enc_u64(m.version as u64) + enc_substate_value(m.substate)
}

/// A whole buffer holds exactly one substate.
pub open spec fn dec_substate_full(s: Seq<u8>) -> Option<SubstateModel> {
    match dec_u64_spec(s) {
        Some((version, r1)) => if version < 0x1_0000_0000 {
            match dec_substate_value(r1) {
                Some((substate, r2)) => if r2.len() == 0 {
                    Some(SubstateModel { substate, version: version as u32 })
                } else {
                    None
                },
                None => None,
            }
        } else {
            None
        },
        None => None,
    }
}

impl Substate {
    pub closed spec fn substate_spec(&self) -> SubstateValue {
        self.substate
    }

    pub closed spec fn version_spec(&self) -> u32 {
        self.version
    }

    /// The abstract value of this substate.
    pub open spec fn model(&self) -> SubstateModel {
        SubstateModel { substate: self.substate_spec().model(), version: self.version_spec() }
    }

    /// A fresh substate at version zero.
    pub fn new(substate: SubstateValue) -> (r: Substate)
        ensures
            r.substate_spec() == substate,
            r.version_spec() == 0,
    {
        Substate { substate, version: 0 }
    }

    pub fn substate_value(&self) -> (r: &SubstateValue)
        ensures
            *r == self.substate_spec(),
    {
        &self.substate
    }

    pub fn into_substate(self) -> (r: SubstateValue)
        ensures
            r == self.substate_spec(),
    {
        self.substate
    }

    pub fn version(&self) -> (r: u32)
        ensures
            r == self.version_spec(),
    {
        self.version
    }

    /// The canonical bytes of this substate.
    pub fn to_bytes(&self) -> (r: Vec<u8>)
        ensures
            r@ == enc_substate(self.model()),
    {
        let mut out: Vec<u8> = Vec::new();
        push_u64(&mut out, self.version as u64);
        match &self.substate {
            SubstateValue::Component(c) => {
                out.push(0);
                proof {
                    assert((enc_u64(self.version as u64)).push(0u8) =~= enc_u64(
                        self.version as u64,
                    ) + seq![0u8]);
                }
                push_u64(&mut out, c.component_address);
                push_u64(&mut out, c.template_address);
                push_bytes(&mut out, &c.state);
                proof {
                    assert(out@ =~= enc_substate(self.model()));
                }
            },
            SubstateValue::Resource(res) => {
                out.push(1);
                proof {
                    assert((enc_u64(self.version as u64)).push(1u8) =~= enc_u64(
                        self.version as u64,
                    ) + seq![1u8]);
                }
                push_u64(&mut out, res.resource_address);
                push_bytes(&mut out, &res.metadata);
                proof {
                    assert(out@ =~= enc_substate(self.model()));
                }
            },
        }
        out
    }

    /// Parses a substate from the whole buffer: the substate whose
    /// canonical bytes the buffer holds, or `None`.
    pub fn from_bytes(bytes: &Vec<u8>) -> (r: Option<Substate>)
        ensures
            match r {
                Some(s) => dec_substate_full(bytes@) == Some(s.model()),
                None => dec_substate_full(bytes@) is None,
            },
    {
        proof {
            assert(bytes@.skip(0) =~= bytes@);
        }
        let version = match read_u64(bytes, 0) {
            Some(t) => {
                proof {
                    assert(bytes@.skip(0).skip(8) =~= bytes@.skip(8));
                }
                t
            },
            None => {
                return None;
            },
        };
        if version.0 >= 0x1_0000_0000 {
            return None;
        }
        if version.1 >= bytes.len() {
            return None;
        }
        let tag = bytes[version.1];
        let after_tag = version.1 + 1;
        proof {
            assert(bytes@.skip(version.1 as int)[0] == bytes@[version.1 as int]);
            assert(bytes@.skip(version.1 as int).skip(1) =~= bytes@.skip(after_tag as int));
        }
        let value = if tag == 0 {
            let ca = match read_u64(bytes, after_tag) {
                Some(t) => t,
                None => {
                    return None;
                },
            };
            proof {
                assert(bytes@.skip(after_tag as int).skip(8) =~= bytes@.skip(ca.1 as int));
            }
            let ta = match read_u64(bytes, ca.1) {
                Some(t) => t,
                None => {
                    return None;
                },
            };
            proof {
                assert(bytes@.skip(ca.1 as int).skip(8) =~= bytes@.skip(ta.1 as int));
            }
            let state = match read_bytes(bytes, ta.1) {
                Some(t) => t,
                None => {
                    return None;
                },
            };
            if state.1 != bytes.len() {
                proof {
                    assert(bytes@.skip(state.1 as int).len() != 0);
                }
                return None;
            }
            proof {
                assert(bytes@.skip(state.1 as int).len() == 0);
            }
            SubstateValue::Component(ComponentInstance {
                component_address: ca.0,
                template_address: ta.0,
                state: state.0,
            })
        } else if tag == 1 {
            let ra = match read_u64(bytes, after_tag) {
                Some(t) => t,
                None => {
                    return None;
                },
            };
            proof {
                assert(bytes@.skip(after_tag as int).skip(8) =~= bytes@.skip(ra.1 as int));
            }
            let metadata = match read_bytes(bytes, ra.1) {
                Some(t) => t,
                None => {
                    return None;
                },
            };
            if metadata.1 != bytes.len() {
                proof {
                    assert(bytes@.skip(metadata.1 as int).len() != 0);
                }
                return None;
            }
            proof {
                assert(bytes@.skip(metadata.1 as int).len() == 0);
            }
            SubstateValue::Resource(Resource { resource_address: ra.0, metadata: metadata.0 })
        } else {
            return None;
        };
        Some(Substate { substate: value, version: version.0 as u32 })
    }
}

/// The round trip law for substates: decoding the canonical bytes of any
/// substate gives the substate back.
pub proof fn theorem_substate_round_trip(m: SubstateModel)
    requires
        match m.substate {
            SubstateValueModel::Component { state, .. } => state.len()
                < 0x1_0000_0000_0000_0000,
            SubstateValueModel::Resource { metadata, .. } => metadata.len()
                < 0x1_0000_0000_0000_0000,
        },
    ensures
        dec_substate_full(enc_substate(m)) == Some(m),
{
    let tail = enc_substate_value(m.substate);
    assert(enc_substate(m) =~= enc_u64(m.version as u64) + (tail + Seq::<u8>::empty()));
    crate::codec::lemma_u64_prefix(m.version as u64, tail + Seq::<u8>::empty());
    assert((tail + Seq::<u8>::empty()) =~= tail);
    match m.substate {
        SubstateValueModel::Component { component_address, template_address, state } => {
            let t3: Seq<u8> = Seq::empty();
            let t2 = enc_bytes(state) + t3;
            let t1 = enc_u64(template_address) + t2;
            let t0 = enc_u64(component_address) + t1;
            assert(tail =~= seq![0u8] + t0);
            assert(tail[0] == 0u8);
            assert(tail.skip(1) =~= t0);
            crate::codec::lemma_u64_prefix(component_address, t1);
            crate::codec::lemma_u64_prefix(template_address, t2);
            crate::codec::lemma_bytes_prefix(state, t3);
        },
        SubstateValueModel::Resource { resource_address, metadata } => {
            let t2: Seq<u8> = Seq::empty();
            let t1 = enc_bytes(metadata) + t2;
            let t0 = enc_u64(resource_address) + t1;
            assert(tail =~= seq![1u8] + t0);
            assert(tail[0] == 1u8);
            assert(tail.skip(1) =~= t0);
            crate::codec::lemma_u64_prefix(resource_address, t1);
            crate::codec::lemma_bytes_prefix(metadata, t2);
        },
    }
}

/// The up/down substate changes a transaction's execution produced:
/// created or replaced substates, and destroyed addresses, in order.
#[derive(Debug, Clone, PartialEq, Eq)]
pub struct SubstateDiff {
    up_substates: Vec<(SubstateAddress, Substate)>,
    down_substates: Vec<SubstateAddress>,
}

impl SubstateDiff {
    pub closed spec fn up_spec(&self) -> Seq<(SubstateAddress, Substate)> {
        self.up_substates@
    }

    pub closed spec fn down_spec(&self) -> Seq<SubstateAddress> {
        self.down_substates@
    }

    pub fn new() -> (r: SubstateDiff)
        ensures
            r.up_spec().len() == 0,
            r.down_spec().len() == 0,
    {
        SubstateDiff { up_substates: Vec::new(), down_substates: Vec::new() }
    }

    /// Records a substate brought up at an address.
    pub fn up(&mut self, address: SubstateAddress, value: Substate)
        ensures
            final(self).up_spec() == old(self).up_spec().push((address, value)),
            final(self).down_spec() == old(self).down_spec(),
    {
        self.up_substates.push((address, value));
    }

    /// Records an address brought down.
    pub fn down(&mut self, address: SubstateAddress)
        ensures
            final(self).down_spec() == old(self).down_spec().push(address),
            final(self).up_spec() == old(self).up_spec(),
    {
        self.down_substates.push(address);
    }

    /// The substates brought up, in the order they were recorded.
    pub fn up_iter(&self) -> (r: &Vec<(SubstateAddress, Substate)>)
        ensures
            r@ == self.up_spec(),
    {
        &self.up_substates
    }

    /// The addresses brought down, in the order they were recorded.
    pub fn down_iter(&self) -> (r: &Vec<SubstateAddress>)
        ensures
            r@ == self.down_spec(),
    {
        &self.down_substates
    }
}

} // verus!
