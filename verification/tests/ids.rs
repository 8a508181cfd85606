use ipc_broker::rpc::{format_uuid, CallId, ClientId};

#[test]
fn uuid_text_matches_uuid_display() {
    for n in [0u128, 1, u128::MAX, 0x67e5504410b1426f9247bb680e5fe0c8, 0x0123456789abcdef0123456789abcdef] {
        assert_eq!(format_uuid(n), uuid::Uuid::from_u128(n).to_string());
    }
    assert_eq!(format_uuid(0x67e5504410b1426f9247bb680e5fe0c8), "67e55044-10b1-426f-9247-bb680e5fe0c8");
}

#[test]
fn random_ids_are_version_4_uuids() {
    let a = ClientId::random();
    let b = ClientId::random();
    assert_ne!(a, b);
    let parsed = uuid::Uuid::parse_str(&a.0).unwrap();
    assert_eq!(parsed.get_version_num(), 4);
    assert_eq!(parsed.to_string(), a.0);
    assert_eq!(parsed.get_variant(), uuid::Variant::RFC4122);
    let c = CallId::random();
    assert_eq!(c.0.len(), 36);
    let parsed = uuid::Uuid::parse_str(&c.0).unwrap();
    assert_eq!(parsed.get_version_num(), 4);
    assert!(matches!(c.0.as_bytes()[19], b'8' | b'9' | b'a' | b'b'));
    assert_eq!(ClientId::from_uuid(1).0, "00000000-0000-0000-0000-000000000001");
}
