//! The wire envelope, the in-memory messaging queue, and the template and
//! operator-command records.

use dan_consensus::block::{QuorumCertificate, Vote};
use dan_consensus::cli::{Command, PublishTemplateArgs, TemplateSubcommand, VnSubcommand};
use dan_consensus::messaging::{
    HotstuffMessage, InMemoryMessaging, InboundMessagingError, OutboundMessagingError,
};
use dan_consensus::template::{NewTemplateModel, TemplateModel, TemplateUpdateModel};
use dan_consensus::types::{BlockId, Epoch, NodeHeight, TransactionId, ValidatorId};

fn vote_msg(epoch: u64) -> HotstuffMessage {
    HotstuffMessage::Vote(Vote {
        block_id: BlockId(5),
        height: NodeHeight(5),
        epoch: Epoch(epoch),
        voter: ValidatorId(2),
    })
}

#[test]
fn messages_carry_their_epoch() {
    assert_eq!(vote_msg(3).epoch(), Epoch(3));
    let nv = HotstuffMessage::NewView(QuorumCertificate {
        block_id: BlockId(4),
        height: NodeHeight(4),
        epoch: Epoch(2),
        signers: vec![ValidatorId(0)],
    });
    assert_eq!(nv.epoch(), Epoch(2));
    let req = HotstuffMessage::MissingTransactionsRequest {
        request_id: 1,
        epoch: Epoch(7),
        block_id: BlockId(5),
        transaction_ids: vec![TransactionId(9)],
    };
    assert_eq!(req.epoch(), Epoch(7));

    // A node discards messages for an epoch other than its current one.
    assert!(vote_msg(3).is_for_epoch(Epoch(3)));
    assert!(!vote_msg(3).is_for_epoch(Epoch(4)));
}

#[test]
fn in_memory_queue_is_fifo() {
    let mut q = InMemoryMessaging::new(ValidatorId(0));
    assert!(q.dequeue().is_none());
    q.enqueue(ValidatorId(1), vote_msg(1));
    q.enqueue(ValidatorId(2), vote_msg(2));
    let first = q.dequeue().unwrap();
    assert_eq!(first.0, ValidatorId(1));
    assert_eq!(first.1.epoch(), Epoch(1));
    let second = q.dequeue().unwrap();
    assert_eq!(second.0, ValidatorId(2));
    assert!(q.dequeue().is_none());
}

#[test]
fn outbound_error_wraps_upstream_text() {
    let e = OutboundMessagingError::from_error(String::from("socket closed"));
    assert_eq!(
        e,
        OutboundMessagingError::UpstreamError(String::from("socket closed"))
    );
    let inbound = InboundMessagingError::InvalidMessage {
        reason: String::from("bad frame"),
    };
    match inbound {
        InboundMessagingError::InvalidMessage { reason } => assert_eq!(reason, "bad frame"),
    }
}

#[test]
fn template_update_keeps_absent_fields() {
    let row = TemplateModel {
        id: 1,
        author_public_key: vec![1; 32],
        template_address: vec![2; 32],
        template_name: String::from("counter"),
        expected_hash: vec![3; 32],
        template_type: String::from("wasm"),
        compiled_code: Some(vec![9, 9]),
        flow_json: None,
        manifest: None,
        url: Some(String::from("http://example.invalid/t")),
        status: String::from("New"),
        added_at: 1_700_000_000,
    };
    let update = TemplateUpdateModel {
        compiled_code: None,
        flow_json: Some(String::from("{}")),
        manifest: None,
        status: Some(String::from("Active")),
    };
    let updated = update.apply_to(row.clone());
    assert_eq!(updated.compiled_code, Some(vec![9, 9]));
    assert_eq!(updated.flow_json, Some(String::from("{}")));
    assert_eq!(updated.status, "Active");
    assert_eq!(updated.template_name, "counter");
    assert_eq!(updated.added_at, row.added_at);
}

#[test]
fn operator_commands_hold_publish_args() {
    let publish = PublishTemplateArgs {
        template_code_path: String::from("./template.wasm"),
        template_name: Some(String::from("counter")),
        template_version: Some(2),
        binary_url: None,
    };
    let cmd = Command::Templates(TemplateSubcommand::Publish(publish.clone()));
    match cmd {
        Command::Templates(TemplateSubcommand::Publish(args)) => {
            assert_eq!(args, publish);
        }
        other => panic!("expected publish, got {:?}", other),
    }
    assert_eq!(Command::Vn(VnSubcommand::Register), Command::Vn(VnSubcommand::Register));
}

#[test]
fn new_template_model_holds_insert_fields() {
    let row = NewTemplateModel {
        author_public_key: vec![1; 32],
        template_address: vec![2; 32],
        template_name: String::from("counter"),
        expected_hash: vec![3; 32],
        template_type: String::from("wasm"),
        compiled_code: None,
        flow_json: None,
        status: String::from("New"),
        manifest: None,
    };
    assert_eq!(row.template_name, "counter");
    assert!(row.compiled_code.is_none());
}
