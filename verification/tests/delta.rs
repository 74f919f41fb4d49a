use chronicle::canonical::{CanonicalOperation, OperationEffect, OperationKind, PayloadRef, ProtocolData};
use chronicle::delta::CanonicalDeltaBatchV1;
use chronicle::publication::DeltaBatchError;

fn operation(id: u128, sequence: u64) -> CanonicalOperation {
    CanonicalOperation {
        id,
        sequence,
        started_at_offset: 0,
        completed_at_offset: None,
        kind: OperationKind::Request,
        effect: OperationEffect::Read,
        request: PayloadRef::Missing { reason: "test".into() },
        recorded_response: None,
        attributes: Vec::new(),
        protocol_data: ProtocolData { schema_version: 1, media_type: None, bytes: Vec::new() },
        incomplete: false,
        truncated: false,
        redactions: Vec::new(),
        warnings: Vec::new(),
    }
}

#[test]
fn empty_delta_has_deterministic_digest_and_rejects_range_inversion() {
    let mut batch = CanonicalDeltaBatchV1::new(1, 2, Vec::new()).unwrap();
    assert!(batch.checksum.is_empty());
    batch.sign(b"unsigned encoding");
    let mut again = CanonicalDeltaBatchV1::new(1, 2, Vec::new()).unwrap();
    again.sign(b"unsigned encoding");
    assert_eq!(batch.checksum, again.checksum);
    assert_eq!(batch.validate(b"unsigned encoding"), Ok(()));
    assert!(matches!(CanonicalDeltaBatchV1::new(2, 1, Vec::new()), Err(DeltaBatchError::Invalid)));
}

#[test]
fn delta_orders_operations_and_checks_its_checksum() {
    let batch = CanonicalDeltaBatchV1::new(1, 1, vec![operation(5, 2), operation(9, 1), operation(3, 2)]).unwrap();
    let order: Vec<(u64, u128)> = batch.operations.iter().map(|o| (o.sequence, o.id)).collect();
    assert_eq!(order, vec![(1, 9), (2, 3), (2, 5)]);
    let mut signed = batch;
    signed.sign(b"x");
    assert_eq!(signed.checksum.len(), 64);
    assert_eq!(signed.validate(b"y"), Err(DeltaBatchError::ChecksumMismatch));
    signed.operations.swap(0, 1);
    assert_eq!(signed.validate(b"x"), Err(DeltaBatchError::Unordered));
    signed.checksum = "zz".into();
    assert_eq!(signed.validate(b"x"), Err(DeltaBatchError::Invalid));
    let too_many: Vec<_> = (0..4097).map(|i| operation(i, 0)).collect();
    assert!(matches!(CanonicalDeltaBatchV1::new(0, 0, too_many), Err(DeltaBatchError::Invalid)));
}
