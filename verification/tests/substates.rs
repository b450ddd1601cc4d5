//! Substates, their addresses, the up/down diff, and their canonical
//! byte encoding.

use dan_consensus::substate::{
    ComponentInstance, Resource, Substate, SubstateAddress, SubstateDiff, SubstateValue,
};

fn component() -> SubstateValue {
    SubstateValue::Component(ComponentInstance {
        component_address: 7,
        template_address: 3,
        state: vec![1, 2, 3, 4],
    })
}

fn resource() -> SubstateValue {
    SubstateValue::Resource(Resource {
        resource_address: 9,
        metadata: vec![5, 6],
    })
}

#[test]
fn new_substates_start_at_version_zero() {
    let s = Substate::new(component());
    assert_eq!(s.version(), 0);
    assert_eq!(s.substate_value(), &component());
    assert_eq!(s.into_substate(), component());
}

#[test]
fn substate_bytes_round_trip() {
    for value in [component(), resource()] {
        let s = Substate::new(value);
        let bytes = s.to_bytes();
        let decoded = Substate::from_bytes(&bytes).expect("canonical bytes decode");
        assert_eq!(decoded, s);
        assert_eq!(decoded.to_bytes(), bytes);
    }
    let mut truncated = Substate::new(component()).to_bytes();
    truncated.pop();
    assert!(Substate::from_bytes(&truncated).is_none());
}

#[test]
fn addresses_map_to_shard_ids() {
    assert_eq!(SubstateAddress::Component(12).into_shard_id(), 12);
    assert_eq!(SubstateAddress::Resource(77).into_shard_id(), 77);
}

#[test]
fn diff_records_ups_and_downs_in_order() {
    let mut diff = SubstateDiff::new();
    assert!(diff.up_iter().is_empty());
    assert!(diff.down_iter().is_empty());
    diff.up(SubstateAddress::Component(1), Substate::new(component()));
    diff.up(SubstateAddress::Resource(2), Substate::new(resource()));
    diff.down(SubstateAddress::Component(3));
    assert_eq!(diff.up_iter().len(), 2);
    assert_eq!(diff.up_iter()[0].0, SubstateAddress::Component(1));
    assert_eq!(diff.up_iter()[1].0, SubstateAddress::Resource(2));
    assert_eq!(diff.down_iter(), &vec![SubstateAddress::Component(3)]);
}
